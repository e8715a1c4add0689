//! What patterns that spell one string demand: parts side by side are planned as
//! one string, line breaks that anchors look at as part of it, and an assertion
//! that cannot hold lets nothing pass.

use vstd::prelude::*;

use crate::extract::MIN_LEN;
use crate::query::algebra::{holds, law_and_or_exact, tree_wf, Op};
use crate::query::analyze::fold::{
    analyzed, branch_finished, branches_finished, concat_finished, concat_upto, finalized,
    literal_folded, merged_from, planned, relieved, row_joined, rows_joined, variant_joined,
    variants_crossed, variants_of, Progress,
};
use crate::query::analyze::looks::{
    ending_boundaries, head_boundary, junction, junctions, look_noted, possible, possible_across,
    possible_between, starting_boundaries, tail_boundary, terminator, trailing_split,
};
use crate::query::analyze::reach::{
    bare_before, claims, end_relief, ends_over, part_relief, part_sides, relaxed, sees_crlf,
};
use crate::query::analyze::{
    flush_limit, whole, PlanContext, Sides, Stage, MAX_EXACT, MAX_EXACT_BYTES, PLAN_GRAM_BUDGET,
};
use crate::query::combine::{concatenated, crosses_bounded, joint_sets, seam_of};
use crate::query::flush::{sets_flushed, simplified};
use crate::query::hir::{is_word, Assertion, Regex};
use crate::query::info::{literal, no_match, Info};
use crate::query::needs::facts::shortest;
use crate::query::order::Order;
use crate::query::soundness::demanded::{
    cover_present, law_final_flush_demands, lemma_cover_fits, lemma_one,
};
use crate::query::soundness::lowered::{lemma_ascii_first, lemma_ascii_last};
use crate::query::strings::{crossed, pairs};
use crate::table::WeightTable;

verus! {

/// The summary knows its one match, and that it is not empty.
pub open spec fn is_one(x: Info, u: Seq<u8>) -> bool {
    x.exact == Some(seq![u]) && tree_wf(x.query)
}

pub proof fn lemma_literal_is_one(g: Stage, bytes: Seq<u8>)
    requires
        !g.ctx.fold,
        0 < bytes.len() <= MAX_EXACT_BYTES,
    ensures
        simplified(g, literal_folded(g.ctx, bytes), false) == (literal(bytes), g),
        is_one(literal(bytes), bytes),
{
    reveal(simplified);
    lemma_one(bytes);
}

/// Two summaries of one match each make one of their matches joined.
proof fn lemma_joined_is_one(g: Stage, x: Info, y: Info, u: Seq<u8>, v: Seq<u8>)
    requires
        is_one(x, u),
        is_one(y, v),
        u.len() + v.len() <= MAX_EXACT_BYTES,
    ensures
        is_one(concatenated(g, x, y).0, u + v),
        concatenated(g, x, y).1 == g,
{
    reveal(concatenated);
    reveal(simplified);
    assert(1 * 1 <= MAX_EXACT);
    assert(seq![u].len() * seq![v].len() == 1) by (nonlinear_arith)
        requires
            seq![u].len() == 1,
            seq![v].len() == 1,
    ;
    assert(crosses_bounded(g, x, y) == (x, y, g));
    assert(seam_of(x, y) is None);
    law_and_or_exact(x.query, y.query, Op::And, |s: Seq<u8>| true);
    lemma_one(u + v);
    let p = pairs(seq![u], seq![v]);
    assert(p =~= seq![u + v]) by {
        assert(seq![u].drop_last() =~= Seq::<Seq<u8>>::empty());
        crate::query::strings::lemma_pairs(seq![u], seq![v]);
        assert(pairs(Seq::<Seq<u8>>::empty(), seq![v]) =~= Seq::<Seq<u8>>::empty());
    }
    assert(crossed(seq![u], seq![v], Order::Prefix) == seq![u + v]);
    assert(joint_sets(x, y).exact == Some(seq![u + v]));
}

/// What one match demands at the end of the analysis.
proof fn lemma_one_demands(g: Stage, x: Info, u: Seq<u8>, present: spec_fn(Seq<u8>) -> bool)
    requires
        is_one(x, u),
        g.flushed == 0,
        MIN_LEN <= u.len() <= PLAN_GRAM_BUDGET / 2,
        holds(finalized(g, x).0.query, present),
    ensures
        cover_present(g.table, u, present),
{
    lemma_one(u);
    lemma_cover_fits(g.table, u, flush_limit(g));
    law_final_flush_demands(g, x, present);
    let set = seq![u];
    let s = choose|s: Seq<u8>| #[trigger] set.contains(s) && cover_present(g.table, s, present);
    assert(s == u);
}

/// The analysis has come to one match and no assertion is pending.
pub open spec fn at_one(p: Progress, g: Stage, u: Seq<u8>) -> bool {
    &&& !p.dead
    &&& p.stage == g
    &&& p.pending.len() == 0
    &&& p.accs.len() == 1
    &&& p.accs[0] matches Some(x) && is_one(x, u)
}

/// Nothing has been matched yet.
pub open spec fn at_start(p: Progress, g: Stage) -> bool {
    &&& !p.dead
    &&& p.stage == g
    &&& p.pending.len() == 0
    &&& p.accs.len() == 1
    &&& p.accs[0] is None
}

/// One variant continues one alternative.
pub proof fn lemma_one_variant(p: Progress, v: Info, g: Stage)
    requires
        p.accs.len() == 1,
    ensures
        ({
            let (next, g1) = variant_joined(g, p.accs[0], v, p.pending);
            let r = variants_crossed(p, seq![v], g);
            &&& r.stage == g1
            &&& r.pending.len() == 0
            &&& next is None ==> r.dead
            &&& next matches Some(x) ==> !r.dead && r.accs == seq![Some(x)]
        }),
{
    let vs = seq![v];
    let (next, g1) = variant_joined(g, p.accs[0], v, p.pending);
    assert(p.accs.len() * vs.len() == 1) by (nonlinear_arith)
        requires
            p.accs.len() == 1,
            vs.len() == 1,
    ;
    let none = Seq::<Info>::empty();
    assert(row_joined(g, p.accs[0], vs, p.pending, 0) == (none, g));
    let row = row_joined(g, p.accs[0], vs, p.pending, 1);
    assert(row == match next {
        Some(x) => (none.push(x), g1),
        None => (none, g1),
    });
    assert(rows_joined(g, p.accs, vs, p.pending, 0) == (none, g));
    let rows = rows_joined(g, p.accs, vs, p.pending, 1);
    assert(rows == (none + row.0, row.1));
    let r = variants_crossed(p, vs, g);
    if let Some(x) = next {
        assert(none + row.0 =~= seq![x]);
        assert(r.accs =~= seq![Some(x)]);
    } else {
        assert(none + row.0 =~= none);
    }
}

/// A literal part is joined to what came before it.
pub proof fn lemma_literal_part(g: Stage, h: Regex, e: Sides, n: int, u: Seq<u8>, v: Seq<u8>)
    requires
        !g.ctx.fold,
        h matches Regex::Concat(subs) && 0 < n <= subs@.len() && (subs@[n - 1] matches Regex::Literal(
            lit,
        ) && lit@ == v),
        v.len() > 0,
        u.len() + v.len() <= MAX_EXACT_BYTES,
        at_one(concat_upto(g, h, e, n - 1), g, u) || (at_start(concat_upto(g, h, e, n - 1), g)
            && u.len() == 0),
    ensures
        at_one(concat_upto(g, h, e, n), g, u + v),
        u.len() == 0 && at_start(concat_upto(g, h, e, n - 1), g) ==> concat_upto(
            g,
            h,
            e,
            n,
        ).accs[0] == Some(literal(v)),
{
    let subs = h->Concat_0@;
    let p = concat_upto(g, h, e, n - 1);
    let on = g.ctx.line_sentinels;
    let part = part_sides(on, subs, e, n);
    lemma_literal_is_one(g, v);
    assert(variants_of(g, subs[n - 1], part) == (seq![literal(v)], g));
    let rp = relieved(p, part_relief(on, subs, e, n));
    assert(rp.pending =~= Seq::<Assertion>::empty());
    lemma_one_variant(rp, literal(v), g);
    assert(junctions(rp.pending, 0, p.accs[0], Some(literal(v))) == (
        false,
        p.accs[0],
        Some(literal(v)),
    ));
    if let Some(x) = p.accs[0] {
        lemma_joined_is_one(g, x, literal(v), u, v);
    } else {
        assert(u + v =~= v);
    }
}

/// The end of a concatenation of one match, with or without a terminator behind
/// it.
proof fn lemma_one_finished(p: Progress, trailing: Option<Info>, g: Stage, u: Seq<u8>, v: Seq<u8>)
    requires
        at_one(p, g, u),
        u.len() + v.len() <= MAX_EXACT_BYTES,
        trailing matches Some(term) ==> is_one(term, v),
        trailing is None ==> v.len() == 0,
    ensures
        is_one(concat_finished(p, trailing).0, u + v),
        concat_finished(p, trailing).1 == g,
{
    reveal(sets_flushed);
    let x = p.accs[0]->0;
    let none = Seq::<Info>::empty();
    assert(branches_finished(g, p.accs, trailing, p.pending, 0) == (none, g));
    if let Some(term) = trailing {
        lemma_joined_is_one(g, x, term, u, v);
    } else {
        assert(u + v =~= u);
    }
    let y = match trailing {
        Some(term) => concatenated(g, x, term).0,
        None => x,
    };
    assert(junctions(p.pending, 0, Some(y), None) == (false, Some(y), Option::<Info>::None));
    assert(branch_finished(g, p.accs[0], trailing, p.pending) == (Some(y), g));
    let infos = branches_finished(g, p.accs, trailing, p.pending, 1).0;
    assert(infos =~= seq![y]);
    assert(merged_from(g, infos, 0) == sets_flushed(g, y));
}

/// The strings of the first `n` parts, one after the other.
pub open spec fn spelled(subs: Seq<Regex>, n: int) -> Seq<u8>
    decreases n,
{
    if n <= 0 {
        Seq::empty()
    } else {
        spelled(subs, n - 1) + subs[n - 1]->Literal_0@
    }
}

/// Every part is a literal.
pub open spec fn all_literals(subs: Seq<Regex>) -> bool {
    forall|i: int|
        0 <= i < subs.len() ==> (#[trigger] subs[i] matches Regex::Literal(lit) && lit@.len() > 0)
}

proof fn lemma_spelled_part(g: Stage, h: Regex, e: Sides, n: int)
    requires
        !g.ctx.fold,
        h matches Regex::Concat(subs) && 0 < n <= subs@.len() && all_literals(subs@) && spelled(
            subs@,
            n,
        ).len() <= MAX_EXACT_BYTES,
    ensures
        at_one(concat_upto(g, h, e, n), g, spelled(h->Concat_0@, n)),
    decreases n,
{
    let subs = h->Concat_0@;
    let v = subs[n - 1]->Literal_0@;
    let u = spelled(subs, n - 1);
    if n > 1 {
        lemma_spelled_part(g, h, e, n - 1);
    }
    lemma_literal_part(g, h, e, n, u, v);
}

/// Literals side by side demand the cover of the string they spell together, also
/// the grams that reach from one into the next.
pub proof fn law_adjacent_literals_demand_their_joint_cover(
    table: WeightTable,
    ctx: PlanContext,
    h: Regex,
    present: spec_fn(Seq<u8>) -> bool,
)
    requires
        h matches Regex::Concat(subs) && subs@.len() > 0 && all_literals(subs@) && MIN_LEN
            <= spelled(subs@, subs@.len() as int).len() <= PLAN_GRAM_BUDGET / 2,
        !ctx.fold,
        holds(planned(table, ctx, h), present),
    ensures
        cover_present(
            table,
            spelled(h->Concat_0@, h->Concat_0@.len() as int),
            present,
        ),
{
    let subs = h->Concat_0@;
    let n = subs.len() as int;
    let g = Stage { table, ctx, flushed: 0, finalizing: false };
    let e = whole(ctx);
    let u = spelled(subs, n);
    lemma_spelled_part(g, h, e, n);
    assert(trailing_split(e.end, subs) == (n, Option::<Info>::None));
    let p = concat_upto(g, h, e, n);
    let rp = relieved(p, end_relief(ctx.line_sentinels, subs, e, n));
    assert(rp.pending =~= Seq::<Assertion>::empty());
    lemma_one_finished(rp, None, g, u, Seq::empty());
    assert(u + Seq::<u8>::empty() =~= u);
    lemma_one_demands(g, analyzed(g, h).0, u, present);
}

/// Where the index has sentinels, a literal behind an anchor demands the line
/// break before it together with the literal, and one before an anchor the break
/// behind it.
pub proof fn law_anchored_literal_demands_its_break(
    table: WeightTable,
    ctx: PlanContext,
    h: Regex,
    bytes: Seq<u8>,
    present: spec_fn(Seq<u8>) -> bool,
)
    requires
        h matches Regex::Concat(subs) && subs@.len() == 2 && {
            ||| (subs@[0] == Regex::Look(Assertion::StartLF) || subs@[0] == Regex::Look(
                Assertion::Start,
            )) && (subs@[1] matches Regex::Literal(lit) && lit@ == bytes)
            ||| (subs@[1] == Regex::Look(Assertion::EndLF) || subs@[1] == Regex::Look(
                Assertion::End,
            )) && (subs@[0] matches Regex::Literal(lit) && lit@ == bytes)
        },
        MIN_LEN <= bytes.len() + 1 <= PLAN_GRAM_BUDGET / 2,
        !ctx.fold,
        ctx.line_sentinels,
        holds(planned(table, ctx, h), present),
    ensures
        h->Concat_0@[0] is Look ==> cover_present(table, seq![10u8] + bytes, present),
        h->Concat_0@[1] is Look ==> cover_present(table, bytes + seq![10u8], present),
{
    let subs = h->Concat_0@;
    let g = Stage { table, ctx, flushed: 0, finalizing: false };
    let e = whole(ctx);
    let lf = seq![10u8];
    let term = terminator(seq![lf]);
    assert(is_one(term, lf));
    let p0 = concat_upto(g, h, e, 0);
    assert(at_start(p0, g));
    if subs[0] is Look {
        let p1 = concat_upto(g, h, e, 1);
        let look = subs[0]->Look_0;
        assert(look_noted(e.start, p0.pending, p0.accs, look) == (p0.pending, seq![Some(term)]));
        assert(at_one(p1, g, lf));
        lemma_literal_part(g, h, e, 2, lf, bytes);
        assert(trailing_split(e.end, subs) == (2int, Option::<Info>::None));
        let rp = relieved(concat_upto(g, h, e, 2), end_relief(true, subs, e, 2));
        assert(rp.pending =~= Seq::<Assertion>::empty());
        lemma_one_finished(rp, None, g, lf + bytes, Seq::empty());
        assert(lf + bytes + Seq::<u8>::empty() =~= lf + bytes);
        lemma_one_demands(g, analyzed(g, h).0, lf + bytes, present);
    } else {
        lemma_literal_part(g, h, e, 1, Seq::empty(), bytes);
        assert(Seq::<u8>::empty() + bytes =~= bytes);
        assert(trailing_split(e.end, subs) == (1int, Some(term)));
        let rp = relieved(concat_upto(g, h, e, 1), end_relief(true, subs, e, 1));
        assert(rp.pending =~= Seq::<Assertion>::empty());
        lemma_one_finished(rp, Some(term), g, bytes, lf);
        lemma_one_demands(g, analyzed(g, h).0, bytes + lf, present);
    }
}

/// The assertion cannot hold between the two bytes: a text anchor next to a byte
/// on its side, a line anchor next to a byte that is no line break, a word
/// boundary between two word bytes or between two bytes that are none, and the
/// opposite where a word byte meets another.
pub open spec fn fails_between(look: Assertion, l: u8, r: u8) -> bool {
    match look {
        Assertion::Start => true,
        Assertion::End => true,
        Assertion::StartLF => l != 10,
        Assertion::EndLF => r != 10,
        Assertion::StartCRLF => l != 10 && l != 13,
        Assertion::EndCRLF => r != 10 && r != 13,
        Assertion::WordAscii => is_word(l) == is_word(r),
        Assertion::WordAsciiNegate => is_word(l) != is_word(r),
        Assertion::WordUnicode => is_word(l) && is_word(r),
        _ => false,
    }
}

proof fn lemma_blocked(look: Assertion, a: Seq<u8>, b: Seq<u8>)
    requires
        a.len() > 0,
        b.len() > 0,
        fails_between(look, a.last(), b[0]),
    ensures
        junction(look, Some(literal(a)), Some(literal(b))).0,
{
    let x = Some(literal(a));
    let y = Some(literal(b));
    let ls = ending_boundaries(x);
    let rs = starting_boundaries(y);
    assert(seq![a][0] == a && seq![b][0] == b);
    assert(ls is Some && rs is Some);
    assert(ls->0 =~= seq![tail_boundary(a)->0]);
    assert(rs->0 =~= seq![head_boundary(b)->0]);
    if look == Assertion::WordUnicode {
        lemma_ascii_last(a);
        lemma_ascii_first(b);
    }
    assert(!possible(look, tail_boundary(a), head_boundary(b)));
    assert(!possible_between(look, ls->0, rs->0));
    assert(!possible_across(look, ls, rs));
}

/// An assertion between two literals that cannot hold there lets nothing pass:
/// no document satisfies the plan.
pub proof fn law_impossible_assertion_lets_nothing_pass(
    table: WeightTable,
    ctx: PlanContext,
    h: Regex,
    a: Seq<u8>,
    look: Assertion,
    b: Seq<u8>,
    present: spec_fn(Seq<u8>) -> bool,
)
    requires
        h matches Regex::Concat(subs) && subs@.len() == 3 && (subs@[0] matches Regex::Literal(lit)
            && lit@ == a) && subs@[1] == Regex::Look(look) && (subs@[2] matches Regex::Literal(lit)
            && lit@ == b),
        0 < a.len() <= MAX_EXACT_BYTES,
        0 < b.len() <= MAX_EXACT_BYTES,
        !ctx.fold,
        fails_between(look, a.last(), b[0]),
    ensures
        !holds(planned(table, ctx, h), present),
{
    let subs = h->Concat_0@;
    let g = Stage { table, ctx, flushed: 0, finalizing: false };
    let e = whole(ctx);
    let on = ctx.line_sentinels;
    assert(at_start(concat_upto(g, h, e, 0), g));
    lemma_literal_part(g, h, e, 1, Seq::empty(), a);
    let p1 = concat_upto(g, h, e, 1);
    let p2 = concat_upto(g, h, e, 2);
    assert(p2.accs == p1.accs);
    assert(p2.pending =~= seq![look]);
    let r = part_relief(on, subs, e, 3);
    assert(shortest(subs[0]) == a.len());
    assert(shortest(subs[2]) == b.len());
    assert(!bare_before(subs, 1));
    assert(!bare_before(subs, 2));
    assert(!claims(subs[0], false) && !claims(subs[1], false) && !claims(subs[2], false));
    assert(!sees_crlf(subs[2]));
    assert(!ends_over(on, subs, e, 0));
    assert(!ends_over(on, subs, e, 1));
    assert(!ends_over(on, subs, e, 2));
    assert(relaxed(r, look) == look);
    let rp = relieved(p2, r);
    assert(rp.pending =~= seq![look]);
    lemma_literal_is_one(g, b);
    let part = part_sides(on, subs, e, 3);
    assert(variants_of(g, subs[2], part) == (seq![literal(b)], g));
    lemma_one_variant(rp, literal(b), g);
    lemma_blocked(look, a, b);
    assert(junctions(rp.pending, 0, rp.accs[0], Some(literal(b))).0);
    assert(concat_upto(g, h, e, 3).dead);
    assert(trailing_split(e.end, subs) == (3int, Option::<Info>::None));
    let (x, g1) = analyzed(g, h);
    assert(x == no_match());
    law_final_flush_demands(g1, x, present);
}

/// The assertion is a word boundary.
pub open spec fn is_word_boundary(look: Assertion) -> bool {
    look == Assertion::WordAscii || look == Assertion::WordUnicode
}

/// A literal between word boundaries demands its cover: the boundaries take
/// nothing away from it.
pub proof fn law_bounded_literal_demands_its_cover(
    table: WeightTable,
    ctx: PlanContext,
    h: Regex,
    bytes: Seq<u8>,
    present: spec_fn(Seq<u8>) -> bool,
)
    requires
        h matches Regex::Concat(subs) && subs@.len() == 3 && (subs@[0] matches Regex::Look(v)
            && is_word_boundary(v)) && (subs@[1] matches Regex::Literal(lit) && lit@ == bytes) && (
        subs@[2] matches Regex::Look(w) && is_word_boundary(w)),
        MIN_LEN <= bytes.len() <= PLAN_GRAM_BUDGET / 2,
        !ctx.fold,
        holds(planned(table, ctx, h), present),
    ensures
        cover_present(table, bytes, present),
{
    let subs = h->Concat_0@;
    let g = Stage { table, ctx, flushed: 0, finalizing: false };
    let e = whole(ctx);
    let on = ctx.line_sentinels;
    let (v, w) = (subs[0]->Look_0, subs[2]->Look_0);
    let lit = literal(bytes);
    let p0 = concat_upto(g, h, e, 0);
    assert(at_start(p0, g));
    let p1 = concat_upto(g, h, e, 1);
    assert(p1.pending =~= seq![v]);
    assert(p1.accs == p0.accs && p1.stage == g && !p1.dead);
    let r1 = relieved(p1, part_relief(on, subs, e, 2));
    assert(r1.pending =~= seq![v]);
    lemma_literal_is_one(g, bytes);
    assert(variants_of(g, subs[1], part_sides(on, subs, e, 2)) == (seq![lit], g));
    lemma_one_variant(r1, lit, g);
    lemma_boundary_lets_pass(v, bytes);
    assert(junctions(r1.pending, 1, None, Some(lit)) == (false, Option::<Info>::None, Some(lit)));
    assert(junctions(r1.pending, 0, None, Some(lit)) == (false, Option::<Info>::None, Some(lit)));
    let p2 = concat_upto(g, h, e, 2);
    assert(at_one(p2, g, bytes) && p2.accs[0] == Some(lit));
    let p3 = concat_upto(g, h, e, 3);
    assert(p3.pending =~= seq![w]);
    assert(p3.accs == p2.accs && p3.stage == g && !p3.dead);
    assert(trailing_split(e.end, subs) == (3int, Option::<Info>::None));
    let r3 = relieved(p3, end_relief(on, subs, e, 3));
    assert(r3.pending =~= seq![w]);
    lemma_boundary_lets_pass(w, bytes);
    assert(junctions(r3.pending, 1, Some(lit), None) == (false, Some(lit), Option::<Info>::None));
    assert(junctions(r3.pending, 0, Some(lit), None) == (false, Some(lit), Option::<Info>::None));
    reveal(sets_flushed);
    let none = Seq::<Info>::empty();
    assert(branches_finished(g, r3.accs, None, r3.pending, 0) == (none, g));
    assert(branch_finished(g, r3.accs[0], None, r3.pending) == (Some(lit), g));
    let infos = branches_finished(g, r3.accs, None, r3.pending, 1).0;
    assert(infos =~= seq![lit]);
    assert(merged_from(g, infos, 0) == sets_flushed(g, lit));
    let (x, g1) = analyzed(g, h);
    assert(x == lit && g1 == g);
    lemma_one_demands(g, x, bytes, present);
}

/// A word boundary may stand before a literal and behind it.
proof fn lemma_boundary_lets_pass(look: Assertion, bytes: Seq<u8>)
    requires
        is_word_boundary(look),
        bytes.len() > 0,
    ensures
        junction(look, None, Some(literal(bytes))) == (
            false,
            Option::<Info>::None,
            Some(literal(bytes)),
        ),
        junction(look, Some(literal(bytes)), None) == (
            false,
            Some(literal(bytes)),
            Option::<Info>::None,
        ),
{
    let lit = literal(bytes);
    let rs = starting_boundaries(Some(lit));
    let ls = ending_boundaries(Some(lit));
    assert(seq![bytes][0] == bytes);
    assert(rs->0.len() == 1 && ls->0.len() == 1);
    assert(possible(look, None, Some(rs->0[0])));
    assert(possible(look, Some(ls->0[0]), None));
}

/// A group is planned as the expression in it, and so is an alternative of one
/// branch.
pub proof fn law_groups_plan_as_what_they_hold(
    table: WeightTable,
    ctx: PlanContext,
    h: Regex,
    sub: Regex,
)
    requires
        (h matches Regex::Capture(inner) && *inner == sub) || (h matches Regex::Alternation(subs)
            && subs@ == seq![sub]),
    ensures
        planned(table, ctx, h) == planned(table, ctx, sub),
{
    if let Regex::Alternation(subs) = h {
        assert(subs@[0] == sub);
    }
}

} // verus!
