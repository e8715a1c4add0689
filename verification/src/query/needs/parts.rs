//! How what a pattern needs follows from what its parts need.

use vstd::prelude::*;

use crate::bytes::{count_below, EdgeBytes};
use crate::query::analyze::classes::class_ranges;
use crate::query::edges::{
    class_bytes, class_edge, doc_literal, line_bytes, range_len, scalar_edge, Edge,
};
use crate::query::hir::{class_matches, in_byte_ranges, in_ranges, Assertion, CharClass, Regex};
use crate::query::needs::classes::{
    branch_sets, by_size, class_sets, concat_sets, required_sets, set_rank, set_runs, useful,
    MAX_ANY_BYTE_SETS, MAX_ANY_BYTE_SET_LEN,
};
use crate::query::needs::facts::{
    allows_newline, clamp_u8, count_branch, count_sum, least_count, occurrences, shortest,
    shortest_branch, shortest_sum,
};
use crate::query::plan::tune::{lemma_push_member, lemma_ranked_members, lemma_ranked_order, ranked};
use crate::query::soundness::members::lemma_ranges_ordered;
use crate::query::utf8::{is_scalar, lemma_utf8_bytes, utf8};

verus! {

/// The parts of a sequence or the branches of an alternative.
pub open spec fn parts_of(h: Regex) -> Seq<Regex> {
    match h {
        Regex::Concat(subs) => subs@,
        Regex::Alternation(subs) => subs@,
        _ => Seq::empty(),
    }
}

/// A literal needs its bytes, each as often as it has it.
pub proof fn law_literal_needs_its_bytes(h: Regex, bytes: Seq<u8>, c: u8)
    requires
        h matches Regex::Literal(lit) && lit@ == bytes,
    ensures
        shortest(h) == bytes.len(),
        least_count(h, c) == clamp_u8(occurrences(bytes, c) as int),
        allows_newline(h) <==> bytes.contains(10),
{
}

/// A class needs one byte, and allows a line break where it matches one.
pub proof fn law_class_needs_a_byte(h: Regex, class: CharClass, c: u8)
    requires
        h == Regex::Class(class),
    ensures
        shortest(h) == 1,
        least_count(h, c) == 0,
        allows_newline(h) <==> class_matches(class, seq![10u8]),
{
    assert(utf8(10) =~= seq![10u8]);
    match class {
        CharClass::Unicode(ranges) => {
            if in_ranges(ranges@, 10) {
                assert(class_matches(class, seq![10u8]));
            }
            if class_matches(class, seq![10u8]) {
                let cp = choose|cp: int|
                    is_scalar(cp) && #[trigger] in_ranges(ranges@, cp)
                        && seq![10u8] == utf8(cp);
                lemma_utf8_bytes(cp);
                assert(utf8(cp).len() == 1);
                assert(utf8(cp)[0] == 10);
            }
        },
        CharClass::Bytes(ranges) => {},
    }
}

/// A group needs what the expression in it needs.
pub proof fn law_group_needs_what_it_holds(h: Regex, sub: Regex, c: u8)
    requires
        h matches Regex::Capture(inner) && *inner == sub,
    ensures
        shortest(h) == shortest(sub),
        least_count(h, c) == least_count(sub, c),
        allows_newline(h) <==> allows_newline(sub),
        class_sets(h) == class_sets(sub),
{
}

/// A repetition needs what its copies need together.
pub proof fn law_repetition_needs_its_copies(h: Regex, sub: Regex, c: u8)
    requires
        h matches Regex::Repetition(rep) && *rep.sub == sub,
    ensures
        h matches Regex::Repetition(rep) && shortest(h) == rep.min * shortest(sub) && least_count(
            h,
            c,
        ) == clamp_u8(least_count(sub, c) * rep.min) && (allows_newline(h) <==> rep.max != Some(0u32)
            && allows_newline(sub)) && (rep.min >= 1 ==> class_sets(h) == class_sets(sub)),
{
}

proof fn lemma_sums(h: Regex, k: Regex, n: int, c: u8)
    requires
        h is Concat,
        k is Concat,
        0 <= n <= parts_of(k).len() <= parts_of(h).len(),
        forall|i: int| 0 <= i < n ==> parts_of(h)[i] == parts_of(k)[i],
    ensures
        shortest_sum(h, n) == shortest_sum(k, n),
        count_sum(h, c, n) == count_sum(k, c, n),
    decreases n,
{
    if n > 0 {
        lemma_sums(h, k, n - 1, c);
        assert(parts_of(h)[n - 1] == parts_of(k)[n - 1]);
    }
}

proof fn lemma_sums_behind(h: Regex, k: Regex, l: Regex, n: int, c: u8)
    requires
        h is Concat,
        k is Concat,
        l is Concat,
        parts_of(h) == parts_of(k) + parts_of(l),
        0 <= n <= parts_of(l).len(),
    ensures
        shortest_sum(h, parts_of(k).len() + n) == shortest(k) + shortest_sum(l, n),
        count_sum(h, c, parts_of(k).len() + n) == clamp_u8(least_count(k, c) + count_sum(l, c, n)),
        0 <= count_sum(l, c, n) <= 255,
        0 <= least_count(k, c) <= 255,
    decreases n,
{
    let m = parts_of(k).len() as int;
    if n == 0 {
        lemma_sums(h, k, m, c);
        lemma_count_range(k, c);
    } else {
        lemma_sums_behind(h, k, l, n - 1, c);
        assert(parts_of(h)[m + n - 1] == parts_of(l)[n - 1]);
        lemma_count_range(parts_of(l)[n - 1], c);
    }
}

proof fn lemma_count_range(h: Regex, c: u8)
    ensures
        0 <= least_count(h, c) <= 255,
    decreases h, 1int, 0int,
{
    match h {
        Regex::Repetition(rep) => {
            lemma_count_range(*rep.sub, c);
            let k = least_count(*rep.sub, c);
            assert(k * rep.min >= 0) by (nonlinear_arith)
                requires
                    k >= 0,
                    rep.min >= 0,
            ;
        },
        Regex::Capture(sub) => lemma_count_range(*sub, c),
        Regex::Concat(subs) => lemma_sum_range(h, subs@.len() as int, c),
        Regex::Alternation(subs) => lemma_branch_range(h, subs@.len() as int, c),
        _ => {},
    }
}

proof fn lemma_sum_range(h: Regex, n: int, c: u8)
    requires
        h is Concat,
    ensures
        0 <= count_sum(h, c, n) <= 255,
    decreases h, 0int, n,
{
    if 0 < n <= parts_of(h).len() {
        lemma_sum_range(h, n - 1, c);
        lemma_count_range(parts_of(h)[n - 1], c);
    }
}

proof fn lemma_branch_range(h: Regex, n: int, c: u8)
    requires
        h is Alternation,
    ensures
        0 <= count_branch(h, c, n) <= 255,
    decreases h, 0int, n,
{
    if 0 < n <= parts_of(h).len() {
        lemma_branch_range(h, n - 1, c);
        lemma_count_range(parts_of(h)[n - 1], c);
    }
}

/// A sequence needs what its two halves need together, wherever it is cut: their
/// lengths add up, and so does each byte they need, up to what a count holds.
pub proof fn law_sequence_needs_add_up(h: Regex, k: Regex, l: Regex, c: u8)
    requires
        h is Concat,
        k is Concat,
        l is Concat,
        parts_of(h) == parts_of(k) + parts_of(l),
    ensures
        shortest(h) == shortest(k) + shortest(l),
        least_count(h, c) == clamp_u8(least_count(k, c) + least_count(l, c)),
        allows_newline(h) <==> allows_newline(k) || allows_newline(l),
{
    let m = parts_of(k).len() as int;
    lemma_sums_behind(h, k, l, parts_of(l).len() as int, c);
    if allows_newline(h) {
        let i = choose|i: int| 0 <= i < parts_of(h).len() && allows_newline(
            #[trigger] parts_of(h)[i],
        );
        if i < m {
            assert(parts_of(k)[i] == parts_of(h)[i]);
        } else {
            assert(parts_of(l)[i - m] == parts_of(h)[i]);
        }
    }
    if allows_newline(k) {
        let i = choose|i: int| 0 <= i < parts_of(k).len() && allows_newline(
            #[trigger] parts_of(k)[i],
        );
        assert(parts_of(h)[i] == parts_of(k)[i]);
    }
    if allows_newline(l) {
        let i = choose|i: int| 0 <= i < parts_of(l).len() && allows_newline(
            #[trigger] parts_of(l)[i],
        );
        assert(parts_of(h)[m + i] == parts_of(l)[i]);
    }
}

/// A sequence of one part needs what the part needs.
pub proof fn law_single_part_needs(h: Regex, sub: Regex, c: u8)
    requires
        h is Concat,
        parts_of(h) == seq![sub],
    ensures
        shortest(h) == shortest(sub),
        least_count(h, c) == least_count(sub, c),
        allows_newline(h) <==> allows_newline(sub),
{
    assert(parts_of(h)[0] == sub);
    lemma_count_range(sub, c);
    assert(shortest_sum(h, 0) == 0 && count_sum(h, c, 0) == 0);
    assert(shortest_sum(h, 1) == shortest(sub));
    assert(count_sum(h, c, 1) == clamp_u8(least_count(sub, c)));
}

proof fn lemma_branches(h: Regex, n: int, c: u8)
    requires
        h is Alternation,
        1 <= n <= parts_of(h).len(),
    ensures
        forall|i: int| 0 <= i < n ==> shortest_branch(h, n) <= shortest(#[trigger] parts_of(h)[i]),
        exists|i: int| 0 <= i < n && shortest_branch(h, n) == shortest(#[trigger] parts_of(h)[i]),
        forall|i: int|
            0 <= i < n ==> count_branch(h, c, n) <= least_count(#[trigger] parts_of(h)[i], c),
        exists|i: int|
            0 <= i < n && count_branch(h, c, n) == least_count(#[trigger] parts_of(h)[i], c),
    decreases n,
{
    let subs = parts_of(h);
    if n > 1 {
        lemma_branches(h, n - 1, c);
        let i = choose|i: int|
            0 <= i < n - 1 && shortest_branch(h, n - 1) == shortest(#[trigger] subs[i]);
        let j = choose|j: int|
            0 <= j < n - 1 && count_branch(h, c, n - 1) == least_count(#[trigger] subs[j], c);
        assert(shortest_branch(h, n) == shortest(subs[n - 1]) || shortest_branch(h, n) == shortest(
            subs[i],
        ));
        assert(count_branch(h, c, n) == least_count(subs[n - 1], c) || count_branch(h, c, n)
            == least_count(subs[j], c));
    } else {
        assert(shortest_branch(h, n) == shortest(subs[0]));
        assert(count_branch(h, c, n) == least_count(subs[0], c));
    }
}

/// An alternative needs what every branch needs, and no less than the branch that
/// needs least.
pub proof fn law_alternative_needs_the_least(h: Regex, c: u8)
    requires
        h is Alternation,
        parts_of(h).len() > 0,
    ensures
        forall|i: int|
            0 <= i < parts_of(h).len() ==> shortest(h) <= shortest(#[trigger] parts_of(h)[i]),
        exists|i: int|
            0 <= i < parts_of(h).len() && shortest(h) == shortest(#[trigger] parts_of(h)[i]),
        forall|i: int|
            0 <= i < parts_of(h).len() ==> least_count(h, c) <= least_count(
                #[trigger] parts_of(h)[i],
                c,
            ),
        exists|i: int|
            0 <= i < parts_of(h).len() && least_count(h, c) == least_count(
                #[trigger] parts_of(h)[i],
                c,
            ),
        allows_newline(h) <==> exists|i: int|
            0 <= i < parts_of(h).len() && allows_newline(#[trigger] parts_of(h)[i]),
{
    lemma_branches(h, parts_of(h).len() as int, c);
}

/// A literal behind an anchor to a line's start makes its first byte the start of
/// a line, and one before an anchor to a line's end makes its last byte the end of
/// one; at the edges of the text the literal stands as far as an edge reaches.
pub proof fn law_anchored_literal_needs_its_edge(h: Regex, bytes: Seq<u8>)
    requires
        h matches Regex::Concat(subs) && subs@.len() == 2 && {
            ||| (subs@[0] == Regex::Look(Assertion::StartLF) || subs@[0] == Regex::Look(
                Assertion::Start,
            )) && (subs@[1] matches Regex::Literal(lit) && lit@ == bytes)
            ||| (subs@[1] == Regex::Look(Assertion::EndLF) || subs@[1] == Regex::Look(
                Assertion::End,
            )) && (subs@[0] matches Regex::Literal(lit) && lit@ == bytes)
        },
        bytes.len() > 0,
    ensures
        parts_of(h)[0] is Look && bytes[0] != 10 ==> (line_bytes(h, Edge::Start) matches Some(set)
            && set =~= set![bytes[0]]),
        parts_of(h)[1] is Look && bytes.last() != 10 ==> (line_bytes(h, Edge::End) matches Some(set)
            && set =~= set![bytes.last()]),
        parts_of(h)[0] == Regex::Look(Assertion::Start) ==> doc_literal(h, Edge::Start) == Some(
            bytes.take(
                if bytes.len() < EdgeBytes::CAPACITY {
                    bytes.len() as int
                } else {
                    EdgeBytes::CAPACITY as int
                },
            ),
        ),
        parts_of(h)[1] == Regex::Look(Assertion::End) ==> doc_literal(h, Edge::End) == Some(
            bytes.skip(
                if bytes.len() < EdgeBytes::CAPACITY {
                    0
                } else {
                    bytes.len() - EdgeBytes::CAPACITY
                },
            ),
        ),
{
    let subs = parts_of(h);
    let none = Set::<u8>::empty();
    if subs[0] is Look {
        let set = none.union(set![bytes[0]]);
        assert(set =~= set![bytes[0]]);
        assert(set.contains(bytes[0]));
        assert(crate::query::edges::tail_shown(subs, Edge::Start, 1, none) == Some(set));
        let keep = if bytes.len() < EdgeBytes::CAPACITY {
            bytes.len() as int
        } else {
            EdgeBytes::CAPACITY as int
        };
        assert(bytes.subrange(0, keep) =~= bytes.take(keep));
    } else {
        let set = none.union(set![bytes.last()]);
        assert(set =~= set![bytes.last()]);
        assert(set.contains(bytes.last()));
        assert(crate::query::edges::tail_shown(subs, Edge::End, 1, none) == Some(set));
        let n = bytes.len() as int;
        let keep = if n < EdgeBytes::CAPACITY {
            n
        } else {
            EdgeBytes::CAPACITY as int
        };
        assert(bytes.subrange(n - keep, n) =~= bytes.skip(n - keep));
    }
}

/// The set is worth asking for: it has a byte, and no more than the limit.
pub open spec fn worth_asking(set: Set<u8>) -> bool {
    0 < count_below(set, 256) <= MAX_ANY_BYTE_SET_LEN
}

proof fn lemma_useful_kept(sets: Seq<Set<u8>>, s: Set<u8>)
    ensures
        useful(sets).contains(s) <==> sets.contains(s) && worth_asking(s),
    decreases sets.len(),
{
    if sets.len() > 0 {
        let head = sets.drop_last();
        lemma_useful_kept(head, s);
        lemma_push_member(useful(head), sets.last(), s);
        lemma_push_member(head, sets.last(), s);
        assert(head.push(sets.last()) =~= sets);
    }
}

proof fn lemma_runs_kept(sets: Seq<Set<u8>>, s: Set<u8>)
    ensures
        set_runs(sets).contains(s) <==> sets.contains(s),
        sets.len() > 0 ==> set_runs(sets).len() > 0 && set_runs(sets).last() == sets.last(),
    decreases sets.len(),
{
    if sets.len() > 1 {
        let head = sets.drop_last();
        lemma_runs_kept(head, s);
        lemma_push_member(set_runs(head), sets.last(), s);
        lemma_push_member(head, sets.last(), s);
        assert(head.push(sets.last()) =~= sets);
        if sets[sets.len() - 1] == sets[sets.len() - 2] {
            assert(head.last() == sets.last());
            assert(head[sets.len() - 2] == sets.last());
            assert(head.contains(sets.last()));
        }
    }
}

/// The sets rise in size.
spec fn rising(sets: Seq<Set<u8>>) -> bool {
    forall|i: int, j: int|
        0 <= i < j < sets.len() ==> count_below(#[trigger] sets[i], 256) <= count_below(
            #[trigger] sets[j],
            256,
        )
}

proof fn lemma_runs_rise(sets: Seq<Set<u8>>)
    requires
        rising(sets),
    ensures
        rising(set_runs(sets)),
    decreases sets.len(),
{
    if sets.len() > 1 {
        let head = sets.drop_last();
        let kept = set_runs(head);
        let last = sets.last();
        lemma_runs_rise(head);
        if sets[sets.len() - 1] != sets[sets.len() - 2] {
            let all = kept.push(last);
            assert forall|i: int, j: int| 0 <= i < j < all.len() implies count_below(
                #[trigger] all[i],
                256,
            ) <= count_below(#[trigger] all[j], 256) by {
                if j == kept.len() {
                    assert(kept.contains(kept[i]));
                    lemma_runs_kept(head, kept[i]);
                    let m = choose|m: int| 0 <= m < head.len() && head[m] == kept[i];
                    assert(sets[m] == kept[i]);
                    assert(count_below(sets[m], 256) <= count_below(sets[sets.len() - 1], 256));
                }
            }
        }
    }
}

/// The byte sets that a plan asks for are the smallest ones worth asking for of
/// those that every match shows a byte of: each of them is one of these, and one
/// that is not asked for is no smaller than any that is, of which there are then
/// as many as a plan asks for.
pub proof fn law_smallest_sets_are_required(h: Regex, s: Set<u8>)
    ensures
        required_sets(h).len() <= MAX_ANY_BYTE_SETS,
        required_sets(h).contains(s) ==> class_sets(h).contains(s) && worth_asking(s),
        class_sets(h).contains(s) && worth_asking(s) && !required_sets(h).contains(s)
            ==> required_sets(h).len() == MAX_ANY_BYTE_SETS && forall|i: int|
            0 <= i < required_sets(h).len() ==> count_below(#[trigger] required_sets(h)[i], 256)
                <= count_below(s, 256),
{
    let own = class_sets(h);
    let worth = useful(own);
    let sized = by_size(worth);
    let all = set_runs(sized);
    let asked = required_sets(h);
    lemma_useful_kept(own, s);
    lemma_ranked_members(worth, set_rank());
    lemma_ranked_order(worth, set_rank());
    assert(sized.contains(s) <==> worth.contains(s));
    lemma_runs_kept(sized, s);
    assert(rising(sized)) by {
        assert forall|i: int, j: int| 0 <= i < j < sized.len() implies count_below(
            #[trigger] sized[i],
            256,
        ) <= count_below(#[trigger] sized[j], 256) by {
            assert(set_rank()(sized[i]) <= set_rank()(sized[j]));
        }
    }
    lemma_runs_rise(sized);
    if asked.contains(s) {
        let i = choose|i: int| 0 <= i < asked.len() && asked[i] == s;
        assert(all[i] == s);
    }
    if all.contains(s) && !asked.contains(s) {
        let j = choose|j: int| 0 <= j < all.len() && all[j] == s;
        if j < asked.len() {
            assert(asked[j] == s);
        }
        assert forall|i: int| 0 <= i < asked.len() implies count_below(#[trigger] asked[i], 256)
            <= count_below(s, 256) by {
            assert(asked[i] == all[i]);
            assert(count_below(all[i], 256) <= count_below(all[j], 256));
        }
    }
}

/// Every class that all matches of a sequence pass through is among the sets of
/// the sequence.
pub proof fn law_sequence_shows_its_classes(h: Regex, i: int, s: Set<u8>)
    requires
        h is Concat,
        0 <= i < parts_of(h).len(),
        class_sets(parts_of(h)[i]).contains(s),
    ensures
        class_sets(h).contains(s),
{
    lemma_sequence_sets(h, parts_of(h).len() as int, i, s);
}

proof fn lemma_sequence_sets(h: Regex, n: int, i: int, s: Set<u8>)
    requires
        h is Concat,
        0 <= i < n <= parts_of(h).len(),
        class_sets(parts_of(h)[i]).contains(s),
    ensures
        concat_sets(h, n).contains(s),
    decreases n,
{
    let head = concat_sets(h, n - 1);
    let own = class_sets(parts_of(h)[n - 1]);
    let all = head + own;
    if i == n - 1 {
        let k = choose|k: int| 0 <= k < own.len() && own[k] == s;
        assert(all[head.len() + k] == s);
    } else {
        lemma_sequence_sets(h, n - 1, i, s);
        let k = choose|k: int| 0 <= k < head.len() && head[k] == s;
        assert(all[k] == s);
    }
}

/// A class shows one of the bytes that its members start with.
pub proof fn law_class_shows_its_first_bytes(h: Regex, class: CharClass)
    requires
        h == Regex::Class(class),
    ensures
        class_sets(h) == seq![class_bytes(class, Edge::Start)],
{
}

/// What a class shows from its first ranges, in ASCII: the bytes in one of them.
proof fn lemma_class_edge(class: CharClass, edge: Edge, n: int, b: u8)
    requires
        class.wf(),
        0 <= n <= range_len(class),
        class is Unicode ==> b < 0x80,
    ensures
        class_edge(class, edge, n).contains(b) <==> exists|i: int|
            0 <= i < n && (#[trigger] class_ranges(class)[i]).0 <= b <= class_ranges(class)[i].1,
    decreases n,
{
    if n > 0 {
        lemma_class_edge(class, edge, n - 1, b);
        lemma_ranges_ordered(class);
        let ranges = class_ranges(class);
        let (lo, hi) = (ranges[n - 1].0 as int, ranges[n - 1].1 as int);
        assert(lo <= hi);
        if let CharClass::Unicode(own) = class {
            assert(own@[n - 1] == ranges[n - 1]);
            assert(hi <= 0x10FFFF);
            lemma_utf8_bytes(lo);
            lemma_utf8_bytes(hi);
            assert(scalar_edge(lo, hi, edge).contains(b) <==> lo <= b <= hi);
        }
        assert(class_edge(class, edge, n).contains(b) <==> class_edge(class, edge, n - 1).contains(
            b,
        ) || lo <= b <= hi);
        if exists|i: int| 0 <= i < n && (#[trigger] ranges[i]).0 <= b <= ranges[i].1 {
            let i = choose|i: int| 0 <= i < n && (#[trigger] ranges[i]).0 <= b <= ranges[i].1;
            if i < n - 1 {
                assert(0 <= i < n - 1 && ranges[i].0 <= b <= ranges[i].1);
            }
        }
        if exists|i: int| 0 <= i < n - 1 && (#[trigger] ranges[i]).0 <= b <= ranges[i].1 {
            let i = choose|i: int| 0 <= i < n - 1 && (#[trigger] ranges[i]).0 <= b <= ranges[i].1;
            assert(0 <= i < n && ranges[i].0 <= b <= ranges[i].1);
        }
        if lo <= b <= hi {
            assert(0 <= n - 1 < n && ranges[n - 1].0 <= b <= ranges[n - 1].1);
        }
    }
}

/// The bytes that a class shows at its edges are, in ASCII, the ones that it
/// matches; of a class of bytes all of them are.
pub proof fn law_class_shows_the_bytes_it_matches(class: CharClass, edge: Edge, b: u8)
    requires
        class.wf(),
        class is Unicode ==> b < 0x80,
    ensures
        class_bytes(class, edge).contains(b) <==> class_matches(class, seq![b]),
{
    let n = range_len(class);
    lemma_class_edge(class, edge, n, b);
    let ranges = class_ranges(class);
    match class {
        CharClass::Unicode(own) => {
            assert(utf8(b as int) =~= seq![b]);
            if in_ranges(ranges, b as int) {
                assert(is_scalar(b as int) && in_ranges(own@, b as int));
            }
            if class_matches(class, seq![b]) {
                let cp = choose|cp: int|
                    is_scalar(cp) && #[trigger] in_ranges(own@, cp) && seq![b] == utf8(cp);
                lemma_utf8_bytes(cp);
                assert(utf8(cp)[0] == b);
            }
        },
        CharClass::Bytes(own) => {
            assert(seq![b][0] == b);
            if in_byte_ranges(own@, b) {
                let i = choose|i: int| 0 <= i < own@.len() && (#[trigger] own@[i]).0 <= b
                    <= own@[i].1;
                assert(ranges[i].0 <= b <= ranges[i].1);
            }
            if exists|i: int| 0 <= i < n && (#[trigger] ranges[i]).0 <= b <= ranges[i].1 {
                let i = choose|i: int| 0 <= i < n && (#[trigger] ranges[i]).0 <= b <= ranges[i].1;
                assert(own@[i].0 <= b <= own@[i].1);
            }
        },
    }
}

proof fn lemma_branch_sets(h: Regex, n: int, b: u8)
    requires
        h is Alternation,
        1 <= n <= parts_of(h).len(),
        forall|i: int| 0 <= i < n ==> class_sets(#[trigger] parts_of(h)[i]).len() == 1,
    ensures
        branch_sets(h, n).len() == 1,
        branch_sets(h, n)[0].contains(b) <==> exists|i: int|
            0 <= i < n && class_sets(#[trigger] parts_of(h)[i])[0].contains(b),
    decreases n,
{
    let own = class_sets(parts_of(h)[n - 1]);
    let none = Seq::<Set<u8>>::empty();
    assert(own.drop_last() =~= none);
    assert(ranked(own.drop_last(), set_rank()) =~= none);
    assert(by_size(own) =~= own);
    if n > 1 {
        lemma_branch_sets(h, n - 1, b);
        assert(branch_sets(h, n)[0] == branch_sets(h, n - 1)[0].union(own[0]));
        if exists|i: int| 0 <= i < n && class_sets(#[trigger] parts_of(h)[i])[0].contains(b) {
            let i = choose|i: int|
                0 <= i < n && class_sets(#[trigger] parts_of(h)[i])[0].contains(b);
            if i < n - 1 {
                assert(0 <= i < n - 1 && class_sets(parts_of(h)[i])[0].contains(b));
            }
        }
    }
    if own[0].contains(b) {
        assert(class_sets(parts_of(h)[n - 1])[0].contains(b));
    }
}

/// An alternative whose branches show a set of bytes each shows the bytes of all
/// of them, and no other.
pub proof fn law_alternative_shows_what_its_branches_show(h: Regex, b: u8)
    requires
        h is Alternation,
        parts_of(h).len() > 0,
        forall|i: int|
            0 <= i < parts_of(h).len() ==> class_sets(#[trigger] parts_of(h)[i]).len() == 1,
    ensures
        class_sets(h).len() == 1,
        class_sets(h)[0].contains(b) <==> exists|i: int|
            0 <= i < parts_of(h).len() && class_sets(#[trigger] parts_of(h)[i])[0].contains(b),
{
    lemma_branch_sets(h, parts_of(h).len() as int, b);
}

} // verus!
