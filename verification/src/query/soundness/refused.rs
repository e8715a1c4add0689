//! What a plan turns away: a document that lacks what the pattern needs.

use vstd::prelude::*;

use crate::bytes::{lemma_edge_room, EdgeBytes};
use crate::num::{clamp_u32, clamp_u64};
use crate::query::analyze::fold::planned;
use crate::query::analyze::PlanContext;
use crate::query::edges::{doc_literal, line_bytes, Edge};
use crate::query::flush::extends;
use crate::query::hir::{Regex, Syntax};
use crate::query::needs::classes::required_sets;
use crate::query::needs::facts::{allows_newline, clamp_u8, least_count, occurrences, shortest};
use crate::query::needs::{lemma_needs_ask, some_counted, RootNeeds};
use crate::query::order::Order;
use crate::query::parser::{pattern_syntax, query_flags};
use crate::query::plan::{
    all_needles_hold, all_needs_hold, expr_holds, need_met, Expr, Index, Needle, ScanNeed,
    ScanSummary,
};
use crate::query::planner::lower::{expr_of, shapes_of};
use crate::query::planner::{context_of, is_plan, is_query_plan, with_needs};
use crate::query::soundness::lowered::index_of;
use crate::query::soundness::needed::{
    edge_len, ends_line, lemma_occurs, on_one_line, starts_line, summarizes,
};
use crate::table::WeightTable;

verus! {

/// A line of the document, or a part of one, has this many bytes.
pub open spec fn some_line(d: Seq<u8>, n: int) -> bool {
    exists|a: int, b: int| 0 <= a <= b <= d.len() && #[trigger] on_one_line(d, a, b) && b - a == n
}

/// The summary says of the document what is true, and a line of it is as long as
/// the longest that the summary tells of.
pub open spec fn exactly_summarizes(summary: ScanSummary, d: Seq<u8>) -> bool {
    summarizes(summary, d) && some_line(d, summary.longest_line_len as int)
}

/// One of the document's bytes is in the set.
pub open spec fn some_byte(d: Seq<u8>, set: Set<u8>) -> bool {
    exists|i: int| 0 <= i < d.len() && set.contains(#[trigger] d[i])
}

/// One of the document's lines starts with a byte of the set.
pub open spec fn some_line_start(d: Seq<u8>, set: Set<u8>) -> bool {
    exists|i: int|
        0 <= i < d.len() && set.contains(#[trigger] d[i]) && d[i] != 10 && (i == 0 || d[i - 1]
            == 10)
}

/// One of the document's lines ends with a byte of the set.
pub open spec fn some_line_end(d: Seq<u8>, set: Set<u8>) -> bool {
    exists|i: int|
        0 <= i < d.len() && set.contains(#[trigger] d[i]) && d[i] != 10 && (i + 1 == d.len() || d[i
            + 1] == 10)
}

/// The document starts with the bytes.
pub open spec fn starts_with(d: Seq<u8>, s: Seq<u8>) -> bool {
    s.len() <= d.len() && d.subrange(0, s.len() as int) == s
}

/// The document ends with the bytes.
pub open spec fn ends_with(d: Seq<u8>, s: Seq<u8>) -> bool {
    s.len() <= d.len() && d.subrange(d.len() - s.len(), d.len() as int) == s
}

/// The document has what the condition names.
pub open spec fn document_has(d: Seq<u8>, need: ScanNeed) -> bool {
    match need {
        ScanNeed::MinByteLen(n) => d.len() >= n,
        ScanNeed::MinLongestLineLen(n) => some_line(d, n as int),
        ScanNeed::ContainsAnyByte(set) => some_byte(d, set.members()),
        ScanNeed::MinByteCounts(counts) => forall|c: u8| #[trigger]
            occurrences(d, c) >= counts.tally()[c as int],
        ScanNeed::LineStartsWithAnyByte(set) => some_line_start(d, set.members()),
        ScanNeed::LineEndsWithAnyByte(set) => some_line_end(d, set.members()),
        ScanNeed::StartsWith(edge) => starts_with(d, edge@),
        ScanNeed::EndsWith(edge) => ends_with(d, edge@),
    }
}

/// The edges that a condition holds have their canonical form.
pub open spec fn need_fits(need: ScanNeed) -> bool {
    match need {
        ScanNeed::StartsWith(edge) => edge.canonical(),
        ScanNeed::EndsWith(edge) => edge.canonical(),
        _ => true,
    }
}

/// A byte that occurs stands somewhere.
proof fn lemma_stands(d: Seq<u8>, c: u8) -> (i: int)
    requires
        occurrences(d, c) > 0,
    ensures
        0 <= i < d.len(),
        d[i] == c,
    decreases d.len(),
{
    if d.last() == c {
        d.len() - 1
    } else {
        lemma_stands(d.drop_last(), c)
    }
}

/// Part of a line is on one line.
proof fn lemma_part_of_line(d: Seq<u8>, n: int, m: int)
    requires
        some_line(d, n),
        0 <= m <= n,
    ensures
        some_line(d, m),
{
    let (a, b) = choose|a: int, b: int|
        0 <= a <= b <= d.len() && #[trigger] on_one_line(d, a, b) && b - a == n;
    assert(on_one_line(d, a, a + m));
}

/// On the summary of a document a condition is met exactly where the document
/// has what the condition names.
pub proof fn law_conditions_tell_documents_apart(need: ScanNeed, summary: ScanSummary, d: Seq<u8>)
    requires
        exactly_summarizes(summary, d),
        need_fits(need),
    ensures
        need_met(need, summary) <==> document_has(d, need),
{
    let tally = summary.byte_counts.tally();
    match need {
        ScanNeed::MinByteLen(n) => {},
        ScanNeed::MinLongestLineLen(n) => {
            let longest = summary.longest_line_len as int;
            if longest >= n {
                lemma_part_of_line(d, longest, n as int);
            }
            if some_line(d, n as int) {
                let (a, b) = choose|a: int, b: int|
                    0 <= a <= b <= d.len() && #[trigger] on_one_line(d, a, b) && b - a == n;
                assert(longest >= clamp_u32(b - a));
            }
        },
        ScanNeed::ContainsAnyByte(set) => {
            if need_met(need, summary) {
                let c = choose|c: u8| #[trigger] set.has(c) && tally[c as int] > 0;
                assert(tally[c as int] == clamp_u8(occurrences(d, c) as int));
                let i = lemma_stands(d, c);
                assert(set.members().contains(d[i]));
            }
            if document_has(d, need) {
                let i = choose|i: int| 0 <= i < d.len() && set.members().contains(#[trigger] d[i]);
                lemma_occurs(d, i);
                assert(tally[d[i] as int] == clamp_u8(occurrences(d, d[i]) as int));
                assert(set.has(d[i]) && tally[d[i] as int] > 0);
            }
        },
        ScanNeed::MinByteCounts(counts) => {
            if need_met(need, summary) {
                assert forall|c: u8| #[trigger] occurrences(d, c) >= counts.tally()[c as int] by {
                    assert(tally[c as int] == clamp_u8(occurrences(d, c) as int));
                }
            }
            if document_has(d, need) {
                assert forall|b: int| 0 <= b < 256 implies #[trigger] tally[b] >= counts.tally()[b]
                    || tally[b] == 255 by {
                    let c = b as u8;
                    assert(tally[c as int] == clamp_u8(occurrences(d, c) as int));
                    assert(occurrences(d, c) >= counts.tally()[c as int]);
                }
            }
        },
        ScanNeed::LineStartsWithAnyByte(set) => {
            if need_met(need, summary) {
                let c = choose|c: u8| #[trigger] set.has(c) && summary.line_start_bytes.has(c);
                assert(starts_line(d, c));
                let i = choose|i: int| 0 <= i < d.len() && #[trigger] d[i] == c && c != 10 && (i
                    == 0 || d[i - 1] == 10);
                assert(set.members().contains(d[i]));
            }
            if document_has(d, need) {
                let i = choose|i: int|
                    0 <= i < d.len() && set.members().contains(#[trigger] d[i]) && d[i] != 10 && (i
                        == 0 || d[i - 1] == 10);
                assert(starts_line(d, d[i]));
                assert(set.has(d[i]) && summary.line_start_bytes.has(d[i]));
            }
        },
        ScanNeed::LineEndsWithAnyByte(set) => {
            if need_met(need, summary) {
                let c = choose|c: u8| #[trigger] set.has(c) && summary.line_end_bytes.has(c);
                assert(ends_line(d, c));
                let i = choose|i: int| 0 <= i < d.len() && #[trigger] d[i] == c && c != 10 && (i + 1
                    == d.len() || d[i + 1] == 10);
                assert(set.members().contains(d[i]));
            }
            if document_has(d, need) {
                let i = choose|i: int|
                    0 <= i < d.len() && set.members().contains(#[trigger] d[i]) && d[i] != 10 && (i
                        + 1 == d.len() || d[i + 1] == 10);
                assert(ends_line(d, d[i]));
                assert(set.has(d[i]) && summary.line_end_bytes.has(d[i]));
            }
        },
        ScanNeed::StartsWith(edge) => {
            lemma_edge_room(edge);
            lemma_prefix(edge@, d);
        },
        ScanNeed::EndsWith(edge) => {
            lemma_edge_room(edge);
            lemma_suffix(edge@, d);
        },
    }
}

/// What stands at the start of a document's first bytes stands at its start.
proof fn lemma_prefix(s: Seq<u8>, d: Seq<u8>)
    ensures
        extends(Order::Prefix, s, d.subrange(0, edge_len(d))) ==> starts_with(d, s),
        starts_with(d, s) && s.len() <= EdgeBytes::CAPACITY ==> extends(
            Order::Prefix,
            s,
            d.subrange(0, edge_len(d)),
        ),
{
    let have = d.subrange(0, edge_len(d));
    if s.len() <= have.len() {
        assert(have.subrange(0, s.len() as int) =~= d.subrange(0, s.len() as int));
    }
}

/// What stands at the end of a document's last bytes stands at its end.
proof fn lemma_suffix(s: Seq<u8>, d: Seq<u8>)
    ensures
        extends(Order::Suffix, s, d.subrange(d.len() - edge_len(d), d.len() as int))
            ==> ends_with(d, s),
        ends_with(d, s) && s.len() <= EdgeBytes::CAPACITY ==> extends(
            Order::Suffix,
            s,
            d.subrange(d.len() - edge_len(d), d.len() as int),
        ),
{
    let have = d.subrange(d.len() - edge_len(d), d.len() as int);
    if s.len() <= have.len() {
        assert(have.subrange(have.len() - s.len(), have.len() as int) =~= d.subrange(
            d.len() - s.len(),
            d.len() as int,
        ));
    }
}

spec fn all_hold(children: Seq<Expr>, ix: Index) -> bool {
    forall|i: int| 0 <= i < children.len() ==> expr_holds(#[trigger] children[i], ix)
}

proof fn lemma_all_of(grams: Seq<Needle>, needs: Seq<ScanNeed>, children: Seq<Expr>, ix: Index)
    ensures
        expr_holds(Expr::AllOf { grams, needs, children }, ix) <==> all_needles_hold(grams, ix)
            && all_needs_hold(needs, ix) && all_hold(children, ix),
{
    let e = Expr::AllOf { grams, needs, children };
    if all_needles_hold(grams, ix) && all_needs_hold(needs, ix) && all_hold(children, ix) {
        assert forall|i: int| 0 <= i < children.len() implies expr_holds(
            #[trigger] children[i],
            ix,
        ) by {}
        assert(expr_holds(e, ix));
    }
    if expr_holds(e, ix) {
        assert forall|i: int| 0 <= i < children.len() implies expr_holds(
            #[trigger] children[i],
            ix,
        ) by {
            assert(e->AllOf_children[i] == children[i]);
        }
    }
}

/// Conditions put beside an expression are asked of every index that satisfies
/// both together, and so is the expression.
pub proof fn law_conditions_are_asked(e: Expr, needs: Seq<ScanNeed>, ix: Index)
    ensures
        expr_holds(with_needs(e, needs), ix) <==> expr_holds(e, ix) && forall|i: int|
            0 <= i < needs.len() ==> (ix.need)(#[trigger] needs[i]),
{
    let all = with_needs(e, needs);
    let asked = all_needs_hold(needs, ix);
    match e {
        Expr::AllOf { grams, needs: own, children } => {
            let both = own + needs;
            assert(all_needs_hold(both, ix) <==> all_needs_hold(own, ix) && asked) by {
                if all_needs_hold(both, ix) {
                    assert forall|i: int| 0 <= i < own.len() implies (ix.need)(
                        #[trigger] own[i],
                    ) by {
                        assert(both[i] == own[i]);
                    }
                    assert forall|i: int| 0 <= i < needs.len() implies (ix.need)(
                        #[trigger] needs[i],
                    ) by {
                        assert(both[own.len() + i] == needs[i]);
                    }
                }
                if all_needs_hold(own, ix) && asked {
                    assert forall|i: int| 0 <= i < both.len() implies (ix.need)(
                        #[trigger] both[i],
                    ) by {
                        if i < own.len() {
                            assert(both[i] == own[i]);
                        } else {
                            assert(both[i] == needs[i - own.len()]);
                        }
                    }
                }
            }
            if needs.len() == 0 {
                assert(both =~= own);
            }
            assert(all == Expr::AllOf { grams, needs: both, children });
            lemma_all_of(grams, own, children, ix);
            lemma_all_of(grams, both, children, ix);
        },
        Expr::AnyOf { grams, needs: own, children } => {
            if needs.len() > 0 {
                let kids = all->AllOf_children;
                assert(kids.len() == 1 && kids[0] == e);
                assert(expr_holds(all, ix) <==> asked && forall|i: int|
                    0 <= i < kids.len() ==> expr_holds(#[trigger] kids[i], ix));
            }
        },
        _ => {},
    }
}

/// The document has what every match of the pattern needs around it: its
/// length, a line that long where no match holds a line break, each byte as
/// often as every match does, a byte of every set that every match shows, and
/// the bytes at line and document edges that anchors ask for.
pub open spec fn has_all_needs(h: Regex, d: Seq<u8>) -> bool {
    &&& d.len() >= clamp_u64(shortest(h) as int)
    &&& !allows_newline(h) && shortest(h) > 1 ==> some_line(d, clamp_u32(shortest(h) as int))
    &&& forall|c: u8| #[trigger] occurrences(d, c) >= least_count(h, c)
    &&& forall|i: int|
        0 <= i < required_sets(h).len() ==> some_byte(d, #[trigger] required_sets(h)[i])
    &&& line_bytes(h, Edge::Start) matches Some(set) ==> some_line_start(d, set)
    &&& line_bytes(h, Edge::End) matches Some(set) ==> some_line_end(d, set)
    &&& doc_literal(h, Edge::Start) matches Some(lit) ==> starts_with(d, lit)
    &&& doc_literal(h, Edge::End) matches Some(lit) ==> ends_with(d, lit)
}

/// A document that satisfies a plan has all that the pattern needs, also where
/// the grams of the pattern ask for nothing.
pub proof fn law_plan_turns_away_what_lacks_a_need(
    e: Expr,
    table: WeightTable,
    ctx: PlanContext,
    h: Regex,
    d: Seq<u8>,
    summary: ScanSummary,
)
    requires
        is_plan(e, table, ctx, h),
        exactly_summarizes(summary, d),
        expr_holds(e, index_of(table, d, summary)),
    ensures
        has_all_needs(h, d),
{
    let ix = index_of(table, d, summary);
    let q = expr_of(planned(table, ctx, h), ctx.fold, shapes_of(h, ctx.fold));
    let needs = choose|needs: RootNeeds| #[trigger]
        needs.describes(h) && e == with_needs(q, needs.list());
    law_conditions_are_asked(q, needs.list(), ix);
    assert forall|i: int| 0 <= i < needs.list().len() implies need_met(
        #[trigger] needs.list()[i],
        summary,
    ) by {
        assert((ix.need)(needs.list()[i]));
    }
    lemma_needs_ask(needs, h, summary);
    lemma_has_all(h, d, summary);
}

/// What the summary of a document tells, the document has.
proof fn lemma_has_all(h: Regex, d: Seq<u8>, summary: ScanSummary)
    requires
        exactly_summarizes(summary, d),
        crate::query::needs::asks(h, summary),
    ensures
        has_all_needs(h, d),
{
    let tally = summary.byte_counts.tally();
    if !allows_newline(h) && shortest(h) > 1 {
        lemma_part_of_line(
            d,
            summary.longest_line_len as int,
            clamp_u32(shortest(h) as int),
        );
    }
    assert forall|c: u8| #[trigger] occurrences(d, c) >= least_count(h, c) by {
        assert(tally[c as int] == clamp_u8(occurrences(d, c) as int));
        assert(tally[c as int] >= least_count(h, c));
    }
    let sets = required_sets(h);
    assert forall|i: int| 0 <= i < sets.len() implies some_byte(d, #[trigger] sets[i]) by {
        assert(some_counted(sets[i], summary));
        let c = choose|c: u8| #[trigger] sets[i].contains(c) && tally[c as int] > 0;
        assert(tally[c as int] == clamp_u8(occurrences(d, c) as int));
        let p = lemma_stands(d, c);
        assert(sets[i].contains(d[p]));
    }
    if let Some(set) = line_bytes(h, Edge::Start) {
        let c = choose|c: u8| #[trigger] set.contains(c) && summary.line_start_bytes.has(c);
        assert(starts_line(d, c));
        let i = choose|i: int| 0 <= i < d.len() && #[trigger] d[i] == c && c != 10 && (i == 0 || d[i
            - 1] == 10);
        assert(set.contains(d[i]));
    }
    if let Some(set) = line_bytes(h, Edge::End) {
        let c = choose|c: u8| #[trigger] set.contains(c) && summary.line_end_bytes.has(c);
        assert(ends_line(d, c));
        let i = choose|i: int| 0 <= i < d.len() && #[trigger] d[i] == c && c != 10 && (i + 1
            == d.len() || d[i + 1] == 10);
        assert(set.contains(d[i]));
    }
    if let Some(lit) = doc_literal(h, Edge::Start) {
        lemma_prefix(lit, d);
    }
    if let Some(lit) = doc_literal(h, Edge::End) {
        lemma_suffix(lit, d);
    }
}

/// What [`crate::query::query`] plans for a pattern, no document satisfies that
/// lacks what every match of the pattern needs.
pub proof fn law_query_turns_away_what_lacks_a_need(
    e: Expr,
    table: WeightTable,
    pattern: Seq<char>,
    d: Seq<u8>,
    summary: ScanSummary,
)
    requires
        is_query_plan(e, table, pattern),
        exactly_summarizes(summary, d),
        expr_holds(e, index_of(table, d, summary)),
    ensures
        exists|h: Regex|
            pattern_syntax(pattern, query_flags()) == Ok::<Syntax, Seq<char>>(h.syntax())
                && #[trigger] has_all_needs(h, d),
{
    let ctx = context_of(pattern);
    let h = choose|h: Regex|
        h.wf() && pattern_syntax(pattern, query_flags()) == Ok::<Syntax, Seq<char>>(h.syntax())
            && #[trigger] is_plan(e, table, ctx, h);
    law_plan_turns_away_what_lacks_a_need(e, table, ctx, h, d, summary);
    assert(has_all_needs(h, d));
}

/// A plan lets every document pass only where the pattern needs nothing of it.
pub proof fn law_open_plan_needs_nothing(
    e: Expr,
    table: WeightTable,
    ctx: PlanContext,
    h: Regex,
    summary: ScanSummary,
)
    requires
        is_plan(e, table, ctx, h),
        e is All,
        exactly_summarizes(summary, Seq::empty()),
    ensures
        has_all_needs(h, Seq::empty()),
        shortest(h) == 0,
{
    law_plan_turns_away_what_lacks_a_need(e, table, ctx, h, Seq::empty(), summary);
}

} // verus!
