//! What a plan asks of an index: the keys of the grams that the query demands,
//! and where a pattern pins them to an edge, an occurrence there.

use vstd::prelude::*;

use crate::extract::cover::{guaranteed_grams, minimal_grams};
use crate::extract::{has_gram, MIN_LEN};
use crate::query::algebra::{holds, Op, Tree};
use crate::query::analyze::fold::planned;
use crate::query::analyze::{PlanContext, PLAN_GRAM_BUDGET};
use crate::query::edges::Edge;
use crate::query::flush::extends;
use crate::query::hir::{is_word, Assertion, Regex};
use crate::query::needs::RootNeeds;
use crate::query::order::Order;
use crate::query::plan::{expr_holds, needle_holds, Expr, GramKey, Index, Needle, ScanSummary};
use crate::query::planner::lower::{
    expr_of, folded_key, has_letter, keys_of, line_literal, line_look, needle_of, needles_of,
    raw_key, shapes_of, start_anchored, unwrapped, word_literal, word_look, Shapes,
};
use crate::query::planner::{is_plan, with_needs};
use crate::query::soundness::demanded::law_literal_demands_its_cover;
use crate::query::soundness::lowered::{
    at_line_edges, at_word_edges, index_of, indexed, key_at, line_closes, line_opens, word_closes,
    word_opens,
};
use crate::query::soundness::refused::law_conditions_are_asked;
use crate::query::soundness::richest::law_literal_demands_all_its_grams;
use crate::table::WeightTable;

verus! {

/// The index has what the needle of a gram asks for.
pub open spec fn asked(fold: bool, shapes: Shapes, ix: Index) -> spec_fn(Seq<u8>) -> bool {
    |g: Seq<u8>| needle_holds(needle_of(g, fold, shapes), ix)
}

/// Lowering a query loses nothing of it: where the expression holds, the query
/// does, of the grams whose needles hold.
pub proof fn law_lowering_asks_for_every_gram(q: Tree, fold: bool, shapes: Shapes, ix: Index)
    requires
        expr_holds(expr_of(q, fold, shapes), ix),
    ensures
        holds(q, asked(fold, shapes, ix)),
    decreases q,
{
    let present = asked(fold, shapes, ix);
    let grams = needles_of(q.grams, fold, shapes);
    let e = expr_of(q, fold, shapes);
    match q.op {
        Op::And => {
            assert forall|g: Seq<u8>| #[trigger] q.grams.contains(g) implies present(g) by {
                let i = choose|i: int| 0 <= i < q.grams.len() && q.grams[i] == g;
                assert(needle_holds(grams[i], ix));
            }
            assert forall|i: int| 0 <= i < q.sub.len() implies holds(
                #[trigger] q.sub[i],
                present,
            ) by {
                assert(expr_holds(e->AllOf_children[i], ix));
                law_lowering_asks_for_every_gram(q.sub[i], fold, shapes, ix);
            }
        },
        Op::Or => {
            if exists|i: int| 0 <= i < grams.len() && needle_holds(#[trigger] grams[i], ix) {
                let i = choose|i: int| 0 <= i < grams.len() && needle_holds(#[trigger] grams[i], ix);
                assert(q.grams.contains(q.grams[i]) && present(q.grams[i]));
            } else {
                let kids = e->AnyOf_children;
                let i = choose|i: int| 0 <= i < kids.len() && expr_holds(#[trigger] kids[i], ix);
                law_lowering_asks_for_every_gram(q.sub[i], fold, shapes, ix);
                assert(holds(q.sub[i], present));
            }
        },
        _ => {},
    }
}

/// A needle asks for the key of its gram, or for that of the folded gram where
/// the plan is folded.
pub proof fn law_needle_asks_for_its_gram(
    g: Seq<u8>,
    fold: bool,
    shapes: Shapes,
    t: WeightTable,
    d: Seq<u8>,
    summary: ScanSummary,
)
    requires
        needle_holds(needle_of(g, fold, shapes), index_of(t, d, summary)),
    ensures
        indexed(t, d, raw_key(g)) || (fold && indexed(t, d, folded_key(g))),
{
    let ix = index_of(t, d, summary);
    let own = keys_of(g, fold);
    let k = match needle_of(g, fold, shapes) {
        Needle::Key(key) => key,
        Needle::AnyKey(keys) => choose|k: GramKey| #[trigger] keys.contains(k) && (ix.key)(k),
        Needle::AtWordEdge { keys, starts, ends, whole } => {
            let k = choose|k: GramKey| #[trigger]
                keys.contains(k) && (ix.word_edge)(k, starts, ends, whole);
            assert(at_word_edges(t, d, k, starts, ends, whole));
            assert(starts || ends);
            k
        },
        Needle::AtLineEdge { keys, starts, ends } => {
            let k = choose|k: GramKey| #[trigger]
                keys.contains(k) && (ix.line_edge)(k, starts, ends);
            assert(at_line_edges(t, d, k, starts, ends));
            assert(starts || ends);
            k
        },
    };
    assert(indexed(t, d, k));
    assert(own[0] == raw_key(g));
    assert(own.contains(k)) by {
        if needle_of(g, fold, shapes) is Key {
            assert(own.contains(own[0]));
        }
    }
}

/// A gram with this text stands in the document where a word starts.
pub open spec fn opens_a_word(t: WeightTable, d: Seq<u8>, g: Seq<u8>) -> bool {
    exists|p: int, e: int| #[trigger] key_at(t, d, raw_key(g), p, e) && word_opens(d, p)
}

/// A gram with this text stands in the document where a word ends.
pub open spec fn closes_a_word(t: WeightTable, d: Seq<u8>, g: Seq<u8>) -> bool {
    exists|p: int, e: int| #[trigger] key_at(t, d, raw_key(g), p, e) && word_closes(d, e)
}

/// A gram with this text is a whole word of the document.
pub open spec fn is_a_word(t: WeightTable, d: Seq<u8>, g: Seq<u8>) -> bool {
    exists|p: int, e: int| #[trigger]
        key_at(t, d, raw_key(g), p, e) && word_opens(d, p) && word_closes(d, e)
}

/// A literal between word boundaries is asked for at the edges of words: a gram
/// at its start where a word starts, one at its end where a word ends, and a gram
/// that is all of it as a whole word.
pub proof fn law_bounded_literal_is_asked_at_words(
    h: Regex,
    bytes: Seq<u8>,
    g: Seq<u8>,
    t: WeightTable,
    d: Seq<u8>,
    summary: ScanSummary,
)
    requires
        h matches Regex::Concat(subs) && subs@.len() == 3 && (subs@[0] == Regex::Look(
            Assertion::WordUnicode,
        ) || subs@[0] == Regex::Look(Assertion::WordAscii)) && (subs@[2] == Regex::Look(
            Assertion::WordUnicode,
        ) || subs@[2] == Regex::Look(Assertion::WordAscii)) && (subs@[1] matches Regex::Literal(lit)
            && lit@ == bytes),
        bytes.len() > 0,
        is_word(bytes[0]),
        is_word(bytes.last()),
        needle_holds(needle_of(g, false, shapes_of(h, false)), index_of(t, d, summary)),
    ensures
        extends(Order::Prefix, g, bytes) ==> opens_a_word(t, d, g),
        extends(Order::Suffix, g, bytes) ==> closes_a_word(t, d, g),
        g == bytes ==> is_a_word(t, d, g),
{
    let ix = index_of(t, d, summary);
    let subs = h->Concat_0@;
    assert(word_look(subs[0]) && word_look(subs[2]));
    assert(unwrapped(subs[1]) == subs[1]);
    assert(word_literal(h) == Some(bytes));
    let starts = extends(Order::Prefix, g, bytes);
    let ends = extends(Order::Suffix, g, bytes);
    if g == bytes {
        assert(bytes.subrange(0, bytes.len() as int) =~= bytes);
    }
    if starts || ends {
        let keys = keys_of(g, false);
        let k = choose|k: GramKey| #[trigger]
            keys.contains(k) && (ix.word_edge)(k, starts, ends, g == bytes);
        assert(k == raw_key(g));
        assert(at_word_edges(t, d, k, starts, ends, g == bytes));
    }
}

/// A gram with this text stands in the document where a line starts.
pub open spec fn opens_a_line(t: WeightTable, d: Seq<u8>, g: Seq<u8>) -> bool {
    exists|p: int, e: int| #[trigger] key_at(t, d, raw_key(g), p, e) && line_opens(d, p)
}

/// A gram with this text stands in the document where a line ends.
pub open spec fn closes_a_line(t: WeightTable, d: Seq<u8>, g: Seq<u8>) -> bool {
    exists|p: int, e: int| #[trigger] key_at(t, d, raw_key(g), p, e) && line_closes(d, e)
}

/// A literal behind a line anchor is asked for at the start of lines, and one
/// before a line anchor at the end of lines.
pub proof fn law_anchored_literal_is_asked_at_lines(
    h: Regex,
    bytes: Seq<u8>,
    g: Seq<u8>,
    t: WeightTable,
    d: Seq<u8>,
    summary: ScanSummary,
)
    requires
        h matches Regex::Concat(subs) && subs@.len() == 2 && {
            ||| (subs@[0] == Regex::Look(Assertion::StartLF) || subs@[0] == Regex::Look(
                Assertion::Start,
            )) && (subs@[1] matches Regex::Literal(lit) && lit@ == bytes)
            ||| (subs@[1] == Regex::Look(Assertion::EndLF) || subs@[1] == Regex::Look(
                Assertion::End,
            )) && (subs@[0] matches Regex::Literal(lit) && lit@ == bytes)
        },
        bytes.len() > 0,
        needle_holds(needle_of(g, false, shapes_of(h, false)), index_of(t, d, summary)),
    ensures
        h->Concat_0@[0] is Look && extends(Order::Prefix, g, bytes) ==> opens_a_line(t, d, g),
        h->Concat_0@[1] is Look && extends(Order::Suffix, g, bytes) ==> closes_a_line(t, d, g),
{
    let ix = index_of(t, d, summary);
    let subs = h->Concat_0@;
    let opens = subs[0] is Look;
    let lit = if opens {
        subs[1]
    } else {
        subs[0]
    };
    assert(unwrapped(lit) == lit);
    assert(word_literal(h) is None);
    assert(line_look(subs[0], Edge::Start) == opens);
    assert(line_look(subs[1], Edge::End) == !opens);
    assert(start_anchored(subs) == opens);
    assert(line_literal(h) is Some);
    let line = line_literal(h)->0;
    assert(line.literal == bytes && line.starts == opens && line.ends == !opens);
    let starts = opens && extends(Order::Prefix, g, bytes);
    let ends = !opens && extends(Order::Suffix, g, bytes);
    if starts || ends {
        let keys = keys_of(g, false);
        let k = choose|k: GramKey| #[trigger]
            keys.contains(k) && (ix.line_edge)(k, starts, ends);
        assert(k == raw_key(g));
        assert(at_line_edges(t, d, k, starts, ends));
    }
}

/// A literal between line anchors is asked for at the edges of lines: a gram at
/// its start where a line starts, and one at its end where a line ends.
pub proof fn law_enclosed_literal_is_asked_at_lines(
    h: Regex,
    bytes: Seq<u8>,
    g: Seq<u8>,
    t: WeightTable,
    d: Seq<u8>,
    summary: ScanSummary,
)
    requires
        h matches Regex::Concat(subs) && subs@.len() == 3 && (subs@[0] == Regex::Look(
            Assertion::StartLF,
        ) || subs@[0] == Regex::Look(Assertion::Start)) && (subs@[2] == Regex::Look(
            Assertion::EndLF,
        ) || subs@[2] == Regex::Look(Assertion::End)) && (subs@[1] matches Regex::Literal(lit)
            && lit@ == bytes),
        bytes.len() > 0,
        needle_holds(needle_of(g, false, shapes_of(h, false)), index_of(t, d, summary)),
    ensures
        extends(Order::Prefix, g, bytes) ==> opens_a_line(t, d, g),
        extends(Order::Suffix, g, bytes) ==> closes_a_line(t, d, g),
{
    let ix = index_of(t, d, summary);
    let subs = h->Concat_0@;
    assert(unwrapped(subs[1]) == subs[1]);
    assert(word_literal(h) is None);
    assert(start_anchored(subs));
    let starts = extends(Order::Prefix, g, bytes);
    let ends = extends(Order::Suffix, g, bytes);
    if starts || ends {
        let keys = keys_of(g, false);
        assert(needle_of(g, false, shapes_of(h, false)) == Needle::AtLineEdge { keys, starts, ends });
        let k = choose|k: GramKey| #[trigger] keys.contains(k) && (ix.line_edge)(k, starts, ends);
        assert(k == raw_key(g));
        assert(at_line_edges(t, d, k, starts, ends));
    }
}

/// A group around a literal changes nothing in where its grams are asked for.
pub proof fn law_groups_leave_the_edges(h: Regex, k: Regex, fold: bool)
    requires
        h matches Regex::Concat(a) && k matches Regex::Concat(b) && a@.len() == b@.len() && forall|
            i: int,
        |
            0 <= i < a@.len() ==> #[trigger] b@[i] == a@[i] || (a@[i] is Literal && (b@[i]
                matches Regex::Capture(sub) && *sub == a@[i])),
    ensures
        shapes_of(h, fold) == shapes_of(k, fold),
{
    let (a, b) = (h->Concat_0@, k->Concat_0@);
    assert forall|i: int| 0 <= i < a.len() implies unwrapped(#[trigger] b[i]) == unwrapped(a[i])
        && word_look(b[i]) == word_look(a[i]) && line_look(b[i], Edge::Start) == line_look(
        a[i],
        Edge::Start,
    ) && line_look(b[i], Edge::End) == line_look(a[i], Edge::End) by {
        if let Regex::Capture(sub) = b[i] {
            if b[i] != a[i] {
                assert(unwrapped(*sub) == *sub);
            }
        }
    }
    assert(start_anchored(a) == start_anchored(b));
    assert(word_literal(h) == word_literal(k));
    assert(line_literal(h) == line_literal(k));
}

/// A gram without a letter is asked for by its own key, also where the plan is
/// folded: it has no other case.
pub proof fn law_letterless_gram_is_asked_as_it_is(
    g: Seq<u8>,
    fold: bool,
    shapes: Shapes,
    t: WeightTable,
    d: Seq<u8>,
    summary: ScanSummary,
)
    requires
        forall|i: int|
            0 <= i < g.len() ==> !('a' as int <= #[trigger] g[i] <= 'z' as int) && !('A' as int
                <= g[i] <= 'Z' as int),
        needle_holds(needle_of(g, fold, shapes), index_of(t, d, summary)),
    ensures
        indexed(t, d, raw_key(g)),
{
    assert(!has_letter(g));
    assert(needle_of(g, fold, shapes) == needle_of(g, false, shapes));
    law_needle_asks_for_its_gram(g, false, shapes, t, d, summary);
}

/// A plan for a literal asks for the key of every gram that covers it: no
/// document satisfies the plan whose index lacks one.
pub proof fn law_literal_plan_asks_for_its_cover(
    e: Expr,
    table: WeightTable,
    ctx: PlanContext,
    h: Regex,
    bytes: Seq<u8>,
    d: Seq<u8>,
    summary: ScanSummary,
    g: Seq<u8>,
)
    requires
        h matches Regex::Literal(lit) && lit@ == bytes,
        !ctx.fold,
        MIN_LEN <= bytes.len() <= PLAN_GRAM_BUDGET / 2,
        is_plan(e, table, ctx, h),
        expr_holds(e, index_of(table, d, summary)),
        minimal_grams(table, bytes).contains(g),
    ensures
        indexed(table, d, raw_key(g)),
{
    let ix = index_of(table, d, summary);
    let shapes = shapes_of(h, false);
    let q = planned(table, ctx, h);
    let needs = choose|needs: RootNeeds| #[trigger]
        needs.describes(h) && e == with_needs(expr_of(q, false, shapes), needs.list());
    law_conditions_are_asked(expr_of(q, false, shapes), needs.list(), ix);
    law_lowering_asks_for_every_gram(q, false, shapes, ix);
    law_literal_demands_its_cover(table, ctx, h, bytes, asked(false, shapes, ix));
    assert(asked(false, shapes, ix)(g));
    law_needle_asks_for_its_gram(g, false, shapes, table, d, summary);
}

/// A plan for a literal asks for the key of every gram of the literal. The literal
/// and its grams must fit the budget of one flush.
pub proof fn law_literal_plan_asks_for_all_its_grams(
    e: Expr,
    table: WeightTable,
    ctx: PlanContext,
    h: Regex,
    bytes: Seq<u8>,
    d: Seq<u8>,
    summary: ScanSummary,
    g: Seq<u8>,
)
    requires
        h matches Regex::Literal(lit) && lit@ == bytes,
        !ctx.fold,
        MIN_LEN <= bytes.len() <= PLAN_GRAM_BUDGET / 2,
        guaranteed_grams(table, bytes).len() <= PLAN_GRAM_BUDGET / 2,
        is_plan(e, table, ctx, h),
        expr_holds(e, index_of(table, d, summary)),
        has_gram(table, bytes, g),
    ensures
        indexed(table, d, raw_key(g)),
{
    let ix = index_of(table, d, summary);
    let shapes = shapes_of(h, false);
    let q = planned(table, ctx, h);
    let needs = choose|needs: RootNeeds| #[trigger]
        needs.describes(h) && e == with_needs(expr_of(q, false, shapes), needs.list());
    law_conditions_are_asked(expr_of(q, false, shapes), needs.list(), ix);
    law_lowering_asks_for_every_gram(q, false, shapes, ix);
    law_literal_demands_all_its_grams(table, ctx, h, bytes, asked(false, shapes, ix));
    assert(asked(false, shapes, ix)(g));
    law_needle_asks_for_its_gram(g, false, shapes, table, d, summary);
}

} // verus!
