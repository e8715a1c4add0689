//! What literals with a gap between them demand: the cover of the first, and that
//! of the second, alone or joined to the first; and what a run of a literal does.

use vstd::prelude::*;

use crate::extract::MIN_LEN;
use crate::num::clamp;
use crate::query::algebra::{combined, holds, law_and_or_exact, tree_wf, Op};
use crate::query::analyze::boundary::{
    boundary_strings, byte_ends, is_first_byte, is_last_byte, marked_strings, marks_of,
    MAX_BOUNDARY_BYTES,
};
use crate::query::analyze::classes::{class_info, class_ranges, range_total, MAX_CLASS};
use crate::query::analyze::fold::{
    analyzed, analyzed_in, branch_finished, branches_finished, concat_finished, concat_upto,
    finalized, merged_from, planned, relieved, variants_of, Progress,
};
use crate::query::analyze::looks::{junctions, trailing_split};
use crate::query::analyze::reach::{copy_sides, end_relief, part_relief, part_sides};
use crate::query::analyze::repeat::{affordable, copies_upto, plus_of, query_weight, repeated};
use crate::query::analyze::stages::{kept_set_simplified, kept_sets_flushed};
use crate::query::analyze::{
    can_flush, flush_limit, spent, whole, PlanContext, Sides, Stage, BOUNDARY_GROW, MAX_SET,
    MIN_FLUSH_GRAMS,
};
use crate::query::combine::{concatenated, crosses_bounded, joint_sets, seam_of};
use crate::query::covers::lemma_max_len;
use crate::query::flush::{
    edge_set, exact_added, must_reduce, set_simplified, sets_flushed, simplified,
};
use crate::query::hir::{in_ranges, Assertion, CharClass, Regex};
use crate::query::info::{any_match, literal, Info};
use crate::query::order::{cleaned, lemma_cleaned, lemma_cleaned_is, same_members, Order};
use crate::query::soundness::combined::lemma_united_contains;
use crate::query::soundness::demanded::{
    cover_present, law_edges_only_narrow, law_flush_asks_for_a_string, lemma_covers_fit,
    lemma_enough_bytes, lemma_fewer_bytes, lemma_one, lemma_set_simplified_narrows,
    some_cover_present,
};
use crate::query::soundness::spelled::{
    at_start, lemma_literal_is_one, lemma_literal_part, lemma_one_variant,
};
use crate::query::strings::{byte_len, crossed, lemma_pairs, max_len, pairs, united};
use crate::table::WeightTable;

verus! {

/// A set that is kept whole: few strings, none of them long.
spec fn stays(set: Seq<Seq<u8>>) -> bool {
    &&& set.len() <= MAX_SET
    &&& forall|s: Seq<u8>| #[trigger] set.contains(s) ==> s.len() <= BOUNDARY_GROW
}

proof fn lemma_stays(order: Order, set: Seq<Seq<u8>>)
    requires
        stays(set),
    ensures
        cleaned(order, set).len() <= MAX_SET,
        !must_reduce(cleaned(order, set)),
        stays(cleaned(order, set)),
{
    let t = cleaned(order, set);
    lemma_cleaned(order, set);
    assert forall|x: Seq<u8>| #[trigger] t.contains(x) implies set.contains(x) by {}
    lemma_fewer_bytes(t, set);
    lemma_max_len(t);
    if t.len() > 0 {
        let x = choose|x: Seq<u8>| #[trigger] t.contains(x) && x.len() == max_len(t);
        assert(set.contains(x));
    }
}

/// Sets that are kept whole cost nothing.
proof fn lemma_small_sets_stay(g: Stage, x: Info)
    requires
        x.exact is None,
        can_flush(g),
        stays(x.prefix),
        stays(x.suffix),
    ensures
        simplified(g, x, false) == (
            Info {
                prefix: cleaned(Order::Prefix, x.prefix),
                suffix: cleaned(Order::Suffix, x.suffix),
                ..x
            },
            g,
        ),
{
    reveal(simplified);
    lemma_stays(Order::Prefix, x.prefix);
    lemma_stays(Order::Suffix, x.suffix);
    let x1 = set_simplified(g, x, Order::Prefix, false).0;
    assert(x1 == (Info { prefix: cleaned(Order::Prefix, x.prefix), ..x }));
}

/// The marked bytes are strings of one byte.
proof fn lemma_marked_short(marks: Seq<bool>, n: int, s: Seq<u8>)
    requires
        marked_strings(marks, n).contains(s),
    ensures
        s.len() == 1,
    decreases n,
{
    if n > 0 {
        let all = marked_strings(marks, n);
        let head = marked_strings(marks, n - 1);
        let k = choose|k: int| 0 <= k < all.len() && all[k] == s;
        if k < head.len() {
            assert(head[k] == s);
            lemma_marked_short(marks, n - 1, s);
        }
    }
}

proof fn lemma_boundary_stays(marks: Seq<bool>)
    ensures
        stays(boundary_strings(marks)),
{
    let all = marked_strings(marks, 256);
    let set = boundary_strings(marks);
    if all.len() == 0 || all.len() > MAX_BOUNDARY_BYTES {
        assert forall|s: Seq<u8>| #[trigger] set.contains(s) implies s.len() <= BOUNDARY_GROW by {
            assert(set[0].len() == 0);
        }
    } else {
        lemma_cleaned(Order::Prefix, all);
        lemma_fewer_bytes(set, all);
        assert forall|s: Seq<u8>| #[trigger] set.contains(s) implies s.len() <= BOUNDARY_GROW by {
            assert(all.contains(s));
            lemma_marked_short(marks, 256, s);
        }
    }
}

/// Any number of members of a wide class is any string.
proof fn lemma_gap(g: Stage, h: Regex, e: Sides)
    requires
        !g.ctx.fold,
        can_flush(g),
        h matches Regex::Repetition(rep) && rep.min == 0 && rep.max is None && (*rep.sub
            matches Regex::Class(class) && range_total(
            class_ranges(class),
            class_ranges(class).len() as int,
        ) > MAX_CLASS),
    ensures
        analyzed_in(g, h, e) == (any_match(), g),
{
    let rep = h->Repetition_0;
    let x = class_info(rep.sub->Class_0);
    assert(x.exact is None);
    let c = copy_sides(e, rep.max, *rep.sub);
    assert(stays(x.prefix) && stays(x.suffix)) by {
        lemma_wide_stays(rep.sub->Class_0);
    }
    lemma_small_sets_stay(g, x);
    let (base, g1) = analyzed_in(g, *rep.sub, c);
    assert(base.exact is None && g1 == g);
}

proof fn lemma_wide_stays(class: CharClass)
    requires
        range_total(class_ranges(class), class_ranges(class).len() as int) > MAX_CLASS,
    ensures
        stays(class_info(class).prefix),
        stays(class_info(class).suffix),
        class_info(class).exact is None,
{
    let ranges = class_ranges(class);
    lemma_boundary_stays(marks_of(|b: u8| is_first_byte(ranges, b)));
    lemma_boundary_stays(marks_of(|b: u8| is_last_byte(ranges, b)));
    lemma_boundary_stays(marks_of(|b: u8| in_ranges(byte_ends(ranges), b as int)));
}

/// What the summary of a literal with a gap behind it knows.
spec fn gap_behind(x: Info, a: Seq<u8>) -> bool {
    &&& tree_wf(x.query)
    &&& x.exact is None && !x.can_empty && x.plus_base is None
    &&& x.prefix == seq![a]
    &&& x.suffix.no_duplicates()
    &&& forall|s: Seq<u8>| #[trigger]
        x.suffix.contains(s) <==> s == Seq::<u8>::empty() || s == a
}

/// One string after another is one string.
pub proof fn lemma_two_in_a_row(a: Seq<u8>, b: Seq<u8>)
    ensures
        crossed(seq![a], seq![b], Order::Prefix) == seq![a + b],
{
    let p = pairs(seq![a], seq![b]);
    lemma_pairs(seq![a], seq![b]);
    assert(same_members(seq![a + b], p)) by {
        assert(seq![a][0] == a && seq![b][0] == b && seq![a + b][0] == a + b);
        assert(seq![a].contains(a));
        assert(seq![b].contains(b));
        assert(p.contains(a + b));
        assert forall|x: Seq<u8>| #[trigger] seq![a + b].contains(x) <==> p.contains(x) by {
            if p.contains(x) {
                let (u, v) = choose|u: Seq<u8>, v: Seq<u8>|
                    seq![a].contains(u) && seq![b].contains(v) && x == u + v;
                assert(u == a && v == b);
            }
        }
    }
    lemma_cleaned(Order::Prefix, seq![a + b]);
    lemma_cleaned_is(Order::Prefix, seq![a + b], p);
}

proof fn lemma_twice(a: Seq<u8>)
    ensures
        crossed(seq![a], seq![Seq::<u8>::empty()], Order::Prefix) == seq![a],
        united(seq![a], seq![a], Order::Prefix) == seq![a],
        cleaned(Order::Prefix, seq![a]) == seq![a],
{
    lemma_one(a);
    lemma_two_in_a_row(a, Seq::empty());
    assert(a + Seq::<u8>::empty() =~= a);
    let two = seq![a] + seq![a];
    assert(same_members(seq![a], two)) by {
        assert(seq![a][0] == a && two[0] == a && two[1] == a);
        assert forall|x: Seq<u8>| #[trigger] seq![a].contains(x) <==> two.contains(x) by {}
    }
    lemma_cleaned_is(Order::Prefix, seq![a], two);
}

proof fn lemma_gap_behind(g: Stage, a: Seq<u8>)
    requires
        can_flush(g),
        0 < a.len() <= BOUNDARY_GROW,
    ensures
        gap_behind(concatenated(g, literal(a), any_match()).0, a),
        concatenated(g, literal(a), any_match()).1 == g,
{
    reveal(concatenated);
    let none = Seq::<u8>::empty();
    let (x, y) = (literal(a), any_match());
    lemma_one(a);
    lemma_twice(a);
    assert(seq![a].len() * y.prefix.len() == 1) by (nonlinear_arith)
        requires
            seq![a].len() == 1,
            y.prefix.len() == 1,
    ;
    assert(crosses_bounded(g, x, y) == (x, y, g));
    assert(seam_of(x, y) is None);
    law_and_or_exact(x.query, y.query, Op::And, |s: Seq<u8>| true);
    let joint = Info { query: combined(x.query, y.query, Op::And), ..joint_sets(x, y) };
    assert(joint.prefix == seq![a]);
    let suffix = united(seq![none], seq![a], Order::Suffix);
    assert(joint.suffix == suffix);
    lemma_cleaned(Order::Suffix, seq![none] + seq![a]);
    assert forall|s: Seq<u8>| #[trigger] suffix.contains(s) <==> s == none || s == a by {
        lemma_united_contains(seq![none], seq![a], Order::Suffix, s);
        assert(seq![none][0] == none && seq![a][0] == a);
    }
    lemma_fewer_bytes(suffix, seq![none] + seq![a]);
    assert(stays(seq![a])) by {
        assert forall|s: Seq<u8>| #[trigger] seq![a].contains(s) implies s.len()
            <= BOUNDARY_GROW by {}
    }
    lemma_small_sets_stay(g, joint);
    lemma_cleaned(Order::Suffix, suffix);
    let out = concatenated(g, x, y).0;
    assert(out.suffix == cleaned(Order::Suffix, suffix));
    assert forall|s: Seq<u8>| #[trigger] out.suffix.contains(s) <==> s == none || s == a by {
        assert(suffix.contains(s) <==> s == none || s == a);
    }
}

/// What the summary of two literals with a gap between them knows.
spec fn gap_between(x: Info, a: Seq<u8>, b: Seq<u8>) -> bool {
    &&& tree_wf(x.query)
    &&& x.exact is None && !x.can_empty
    &&& x.prefix == seq![a]
    &&& x.suffix.no_duplicates()
    &&& forall|s: Seq<u8>| #[trigger] x.suffix.contains(s) <==> s == b || s == a + b
}

proof fn lemma_gap_between(g: Stage, x: Info, a: Seq<u8>, b: Seq<u8>)
    requires
        can_flush(g),
        gap_behind(x, a),
        0 < a.len(),
        0 < b.len(),
        a.len() + b.len() <= BOUNDARY_GROW,
    ensures
        gap_between(concatenated(g, x, literal(b)).0, a, b),
        concatenated(g, x, literal(b)).1 == g,
{
    reveal(concatenated);
    let none = Seq::<u8>::empty();
    let y = literal(b);
    lemma_one(b);
    lemma_twice(a);
    let few = seq![none, a];
    assert forall|s: Seq<u8>| #[trigger] x.suffix.contains(s) implies few.contains(s) by {
        assert(few[0] == none && few[1] == a);
    }
    lemma_fewer_bytes(x.suffix, few);
    assert(x.suffix.len() * seq![b].len() <= 2) by (nonlinear_arith)
        requires
            x.suffix.len() <= 2,
            seq![b].len() == 1,
    ;
    assert(crosses_bounded(g, x, y) == (x, y, g));
    assert(seam_of(x, y) is None);
    law_and_or_exact(x.query, y.query, Op::And, |s: Seq<u8>| true);
    let joint = Info { query: combined(x.query, y.query, Op::And), ..joint_sets(x, y) };
    assert(joint.prefix == seq![a]);
    let raw = pairs(x.suffix, seq![b]);
    let suffix = crossed(x.suffix, seq![b], Order::Suffix);
    assert(joint.suffix == suffix);
    lemma_pairs(x.suffix, seq![b]);
    lemma_cleaned(Order::Suffix, raw);
    assert forall|s: Seq<u8>| #[trigger] suffix.contains(s) <==> s == b || s == a + b by {
        assert(seq![b][0] == b);
        assert(seq![b].contains(b));
        assert(x.suffix.contains(none) && x.suffix.contains(a));
        assert(none + b =~= b);
        assert(raw.contains(none + b));
        assert(raw.contains(a + b));
        if raw.contains(s) {
            let (u, v) = choose|u: Seq<u8>, v: Seq<u8>|
                x.suffix.contains(u) && seq![b].contains(v) && s == u + v;
            assert(v == b);
        }
        assert(suffix.contains(s) <==> raw.contains(s));
    }
    let two = seq![b, a + b];
    assert forall|s: Seq<u8>| #[trigger] suffix.contains(s) implies two.contains(s) by {
        assert(two[0] == b && two[1] == a + b);
    }
    lemma_fewer_bytes(suffix, two);
    assert(stays(seq![a])) by {
        assert forall|s: Seq<u8>| #[trigger] seq![a].contains(s) implies s.len()
            <= BOUNDARY_GROW by {}
    }
    lemma_small_sets_stay(g, joint);
    lemma_cleaned(Order::Suffix, suffix);
    let out = concatenated(g, x, y).0;
    assert forall|s: Seq<u8>| #[trigger] out.suffix.contains(s) <==> s == b || s == a + b by {
        assert(suffix.contains(s) <==> s == b || s == a + b);
    }
}

/// The strings of an edge are long enough to be covered, and their covers fit any
/// flush.
pub open spec fn edge_fits(set: Seq<Seq<u8>>) -> bool {
    &&& set.len() > 0
    &&& forall|s: Seq<u8>| #[trigger] set.contains(s) ==> s.len() >= MIN_LEN
    &&& byte_len(set) <= MIN_FLUSH_GRAMS
}

/// A forced flush of an edge asks for one of its strings.
proof fn lemma_forced_edge(
    g: Stage,
    x: Info,
    order: Order,
    present: spec_fn(Seq<u8>) -> bool,
)
    requires
        tree_wf(x.query),
        !x.can_empty,
        g.finalizing,
        edge_fits(edge_set(x, order)),
    ensures
        holds(set_simplified(g, x, order, true).0.query, present) ==> some_cover_present(
            g.table,
            edge_set(x, order),
            present,
        ),
        tree_wf(set_simplified(g, x, order, true).0.query),
{
    let set = edge_set(x, order);
    let t = cleaned(order, set);
    lemma_set_simplified_narrows(g, x, order, true, present);
    lemma_cleaned(order, set);
    assert forall|i: int| 0 <= i < t.len() implies (#[trigger] t[i]).len() >= MIN_LEN by {
        assert(t.contains(t[i]));
        assert(set.contains(t[i]));
    }
    assert forall|s: Seq<u8>| #[trigger] t.contains(s) implies set.contains(s) by {}
    lemma_fewer_bytes(t, set);
    lemma_enough_bytes(t);
    assert(set.contains(set[0]));
    assert(t.contains(set[0]));
    lemma_covers_fit(g.table, t, t.len() as int, flush_limit(g));
    law_flush_asks_for_a_string(g, x.query, t, order, present);
    if some_cover_present(g.table, t, present) {
        let s = choose|s: Seq<u8>| #[trigger] t.contains(s) && cover_present(g.table, s, present);
        assert(set.contains(s));
    }
}

/// What the final flush of a summary with open ends demands: one of the strings
/// that a match can start with, and one of those that it can end with.
pub proof fn law_final_flush_demands_the_edges(
    g: Stage,
    x: Info,
    present: spec_fn(Seq<u8>) -> bool,
)
    requires
        tree_wf(x.query),
        x.exact is None,
        !x.can_empty,
        holds(finalized(g, x).0.query, present),
    ensures
        edge_fits(x.prefix) ==> some_cover_present(g.table, x.prefix, present),
        edge_fits(x.suffix) ==> some_cover_present(g.table, x.suffix, present),
{
    reveal(simplified);
    let g1 = Stage { finalizing: true, ..g };
    let (x1, g2) = set_simplified(g1, x, Order::Prefix, true);
    lemma_set_simplified_narrows(g1, x, Order::Prefix, true, present);
    kept_set_simplified(g1, x, Order::Prefix, true);
    assert(x1.suffix == x.suffix && !x1.can_empty && x1.exact is None);
    let (x2, g3) = set_simplified(g2, x1, Order::Suffix, true);
    lemma_set_simplified_narrows(g2, x1, Order::Suffix, true, present);
    assert(simplified(g1, x, true) == (x2, g3));
    assert(exact_added(g3, x2) == (x2, g3));
    if edge_fits(x.prefix) {
        lemma_forced_edge(g1, x, Order::Prefix, present);
    }
    if edge_fits(x.suffix) {
        lemma_forced_edge(g2, x1, Order::Suffix, present);
    }
}

/// Two literals with a gap of any members of a wide class between them demand
/// the cover of the first, and the cover of the second, alone or joined to the
/// first. The literals must be short enough to be kept whole.
pub proof fn law_literals_around_a_gap_demand_their_covers(
    table: WeightTable,
    ctx: PlanContext,
    h: Regex,
    a: Seq<u8>,
    b: Seq<u8>,
    present: spec_fn(Seq<u8>) -> bool,
)
    requires
        h matches Regex::Concat(subs) && subs@.len() == 3 && (subs@[0] matches Regex::Literal(lit)
            && lit@ == a) && (subs@[2] matches Regex::Literal(lit) && lit@ == b) && (subs@[1]
            matches Regex::Repetition(rep) && rep.min == 0 && rep.max is None && (*rep.sub
            matches Regex::Class(class) && range_total(
            class_ranges(class),
            class_ranges(class).len() as int,
        ) > MAX_CLASS)),
        MIN_LEN <= a.len(),
        MIN_LEN <= b.len(),
        a.len() + b.len() <= BOUNDARY_GROW,
        !ctx.fold,
        holds(planned(table, ctx, h), present),
    ensures
        cover_present(table, a, present),
        cover_present(table, b, present) || cover_present(table, a + b, present),
{
    let subs = h->Concat_0@;
    let g = Stage { table, ctx, flushed: 0, finalizing: false };
    let e = whole(ctx);
    let on = ctx.line_sentinels;
    assert(at_start(concat_upto(g, h, e, 0), g));
    lemma_literal_part(g, h, e, 1, Seq::empty(), a);
    let p1 = concat_upto(g, h, e, 1);
    let part2 = part_sides(on, subs, e, 2);
    lemma_gap(g, subs[1], part2);
    assert(variants_of(g, subs[1], part2) == (seq![any_match()], g));
    let r1 = relieved(p1, part_relief(on, subs, e, 2));
    assert(r1.pending =~= Seq::<Assertion>::empty());
    lemma_one_variant(r1, any_match(), g);
    assert(junctions(r1.pending, 0, p1.accs[0], Some(any_match())) == (
        false,
        p1.accs[0],
        Some(any_match()),
    ));
    lemma_gap_behind(g, a);
    let x2 = concatenated(g, literal(a), any_match()).0;
    let p2 = concat_upto(g, h, e, 2);
    assert(p2.accs == seq![Some(x2)] && p2.stage == g && !p2.dead && p2.pending.len() == 0);
    lemma_literal_is_one(g, b);
    let part3 = part_sides(on, subs, e, 3);
    assert(variants_of(g, subs[2], part3) == (seq![literal(b)], g));
    let r2 = relieved(p2, part_relief(on, subs, e, 3));
    assert(r2.pending =~= Seq::<Assertion>::empty());
    lemma_one_variant(r2, literal(b), g);
    assert(junctions(r2.pending, 0, p2.accs[0], Some(literal(b))) == (
        false,
        p2.accs[0],
        Some(literal(b)),
    ));
    lemma_gap_between(g, x2, a, b);
    let x3 = concatenated(g, x2, literal(b)).0;
    let p3 = concat_upto(g, h, e, 3);
    assert(p3.accs == seq![Some(x3)] && p3.stage == g && !p3.dead && p3.pending.len() == 0);
    assert(trailing_split(e.end, subs) == (3int, Option::<Info>::None));
    let rp = relieved(p3, end_relief(on, subs, e, 3));
    assert(rp.pending =~= Seq::<Assertion>::empty());
    lemma_gap_finished(rp, g, x3, present);
    let (x4, g4) = analyzed(g, h);
    assert(gap_between(x4, a, b));
    lemma_gap_fits(x4, a, b);
    law_final_flush_demands_the_edges(g4, x4, present);
    let s = choose|s: Seq<u8>| #[trigger]
        x4.prefix.contains(s) && cover_present(table, s, present);
    assert(s == a);
    let z = choose|z: Seq<u8>| #[trigger]
        x4.suffix.contains(z) && cover_present(table, z, present);
}

/// A literal one or more times demands the literal's cover. The literal must be
/// short enough to be kept whole.
pub proof fn law_run_of_a_literal_demands_its_cover(
    table: WeightTable,
    ctx: PlanContext,
    h: Regex,
    a: Seq<u8>,
    present: spec_fn(Seq<u8>) -> bool,
)
    requires
        h matches Regex::Repetition(rep) && rep.min == 1 && rep.max is None && (*rep.sub
            matches Regex::Literal(lit) && lit@ == a),
        MIN_LEN <= a.len() <= BOUNDARY_GROW,
        !ctx.fold,
        holds(planned(table, ctx, h), present),
    ensures
        cover_present(table, a, present),
{
    let rep = h->Repetition_0;
    let g = Stage { table, ctx, flushed: 0, finalizing: false };
    let e = whole(ctx);
    lemma_literal_is_one(g, a);
    lemma_one(a);
    let c = copy_sides(e, rep.max, *rep.sub);
    assert(analyzed_in(g, *rep.sub, c) == (literal(a), g));
    let base = literal(a);
    assert(query_weight(base) == 0);
    assert(affordable(g, base, 1) == 1);
    assert(spent(g, clamp(query_weight(base) * 0)) == g);
    let x = plus_of(base);
    assert(copies_upto(g, base, 1, false, 1) == (x, g));
    assert(repeated(g, base, 1, None) == simplified(g, x, false));
    assert(stays(seq![a])) by {
        assert forall|s: Seq<u8>| #[trigger] seq![a].contains(s) implies s.len()
            <= BOUNDARY_GROW by {}
    }
    lemma_small_sets_stay(g, x);
    let (y, g1) = analyzed(g, h);
    assert(y.prefix == seq![a] && g1 == g);
    assert(edge_fits(seq![a])) by {
        assert forall|s: Seq<u8>| #[trigger] seq![a].contains(s) implies s.len() >= MIN_LEN by {}
    }
    law_final_flush_demands_the_edges(g, y, present);
    let s = choose|s: Seq<u8>| #[trigger]
        seq![a].contains(s) && cover_present(table, s, present);
    assert(s == a);
}

proof fn lemma_gap_fits(x: Info, a: Seq<u8>, b: Seq<u8>)
    requires
        gap_between(x, a, b),
        MIN_LEN <= a.len(),
        MIN_LEN <= b.len(),
        a.len() + b.len() <= BOUNDARY_GROW,
    ensures
        edge_fits(x.prefix),
        edge_fits(x.suffix),
{
    lemma_one(a);
    assert(x.prefix[0] == a);
    let two = seq![b, a + b];
    assert forall|s: Seq<u8>| #[trigger] x.suffix.contains(s) implies two.contains(s) by {
        assert(two[0] == b && two[1] == a + b);
    }
    lemma_fewer_bytes(x.suffix, two);
    assert(two.drop_last() =~= seq![b]);
    lemma_one(b);
    assert(byte_len(two) == byte_len(seq![b]) + (a + b).len());
    assert(x.suffix.contains(b));
}

/// The end of a concatenation whose summary has open ends.
proof fn lemma_gap_finished(p: Progress, g: Stage, x: Info, present: spec_fn(Seq<u8>) -> bool)
    requires
        p.accs == seq![Some(x)],
        p.stage == g,
        !p.dead,
        p.pending.len() == 0,
        x.exact is None,
        tree_wf(x.query),
    ensures
        ({
            let (y, g1) = concat_finished(p, None);
            &&& y == (Info { query: y.query, ..x })
            &&& tree_wf(y.query)
            &&& g1.table == g.table
        }),
{
    reveal(sets_flushed);
    let none = Seq::<Info>::empty();
    assert(branches_finished(g, p.accs, None, p.pending, 0) == (none, g));
    assert(junctions(p.pending, 0, Some(x), None) == (false, Some(x), Option::<Info>::None));
    assert(branch_finished(g, p.accs[0], None, p.pending) == (Some(x), g));
    let infos = branches_finished(g, p.accs, None, p.pending, 1).0;
    assert(infos =~= seq![x]);
    assert(merged_from(g, infos, 0) == sets_flushed(g, x));
    law_edges_only_narrow(g, x, present);
    kept_sets_flushed(g, x);
}

} // verus!
