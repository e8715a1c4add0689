//! A document with a match meets every condition a plan puts on its summary.

use vstd::prelude::*;

use crate::bytes::EdgeBytes;
use crate::num::{clamp_u32, clamp_u64};
use crate::query::edges::{doc_literal, from_edge, line_bytes, Edge};
use crate::query::flush::extends;
use crate::query::hir::{
    class_matches, concat_matches, in_ranges, matched, repeats, split_at, CharClass, Regex,
};
use crate::query::needs::classes::required_sets;
use crate::query::needs::facts::{
    allows_newline, clamp_u8, class_newline, count_branch, count_sum, least_count, occurrences,
    shortest, shortest_branch, shortest_sum,
};
use crate::query::needs::{lemma_needs_met, meets, some_counted, RootNeeds};
use crate::query::order::Order;
use crate::query::plan::{need_met, ScanSummary};
use crate::query::soundness::lowered::{line_closes, line_opens};
use crate::query::soundness::shown::{
    holds_one, lemma_anchored, lemma_doc_literal, lemma_required, line_edge_at,
};
use crate::query::utf8::{is_scalar, lemma_utf8_bytes, utf8};

verus! {

/// No line break stands in the span.
pub open spec fn on_one_line(d: Seq<u8>, a: int, b: int) -> bool {
    forall|i: int| a <= i < b ==> #[trigger] d[i] != 10
}

/// A line of the document starts with the byte.
pub open spec fn starts_line(d: Seq<u8>, c: u8) -> bool {
    exists|p: int| 0 <= p < d.len() && #[trigger] d[p] == c && c != 10 && line_opens(d, p)
}

/// A line of the document ends with the byte.
pub open spec fn ends_line(d: Seq<u8>, c: u8) -> bool {
    exists|p: int| 0 <= p < d.len() && #[trigger] d[p] == c && c != 10 && line_closes(d, p + 1)
}

/// How many bytes an edge of the document holds.
pub open spec fn edge_len(d: Seq<u8>) -> int {
    if d.len() < EdgeBytes::CAPACITY {
        d.len() as int
    } else {
        EdgeBytes::CAPACITY as int
    }
}

/// The summary says of the document what is true.
pub open spec fn summarizes(summary: ScanSummary, d: Seq<u8>) -> bool {
    &&& summary.byte_len == clamp_u64(d.len() as int)
    &&& forall|a: int, b: int|
        0 <= a <= b <= d.len() && #[trigger] on_one_line(d, a, b) ==> summary.longest_line_len
            >= clamp_u32(b - a)
    &&& forall|c: u8| #[trigger]
        summary.byte_counts.tally()[c as int] == clamp_u8(occurrences(d, c) as int)
    &&& forall|c: u8| #[trigger] summary.line_start_bytes.has(c) <==> starts_line(d, c)
    &&& forall|c: u8| #[trigger] summary.line_end_bytes.has(c) <==> ends_line(d, c)
    &&& summary.prefix@ == d.subrange(0, edge_len(d))
    &&& summary.suffix@ == d.subrange(d.len() - edge_len(d), d.len() as int)
}

/// The last copy of a repetition, and the copies before it.
pub proof fn lemma_last_copy(h: Regex, d: Seq<u8>, a: int, b: int, n: int) -> (m: int)
    requires
        n > 0,
        repeats(h, d, a, b, n),
    ensures
        repeats(h, d, a, m, n - 1),
        matched(h, d, m, b),
{
    let m = choose|m: int| #[trigger]
        split_at(m) && repeats(h, d, a, m, n - 1) && matched(h, d, m, b);
    m
}

/// The last of the first `n` parts, and the parts before it.
pub proof fn lemma_last_part(h: Regex, n: int, d: Seq<u8>, a: int, b: int) -> (m: int)
    requires
        h is Concat,
        0 < n <= h->Concat_0@.len(),
        concat_matches(h, n, d, a, b),
    ensures
        concat_matches(h, n - 1, d, a, m),
        matched(h->Concat_0@[n - 1], d, m, b),
{
    let subs = h->Concat_0;
    let m = choose|m: int| #[trigger]
        split_at(m) && concat_matches(h, n - 1, d, a, m) && matched(subs@[n - 1], d, m, b);
    m
}

/// The spans of copies are in order.
pub proof fn lemma_repeats_bounds(h: Regex, d: Seq<u8>, a: int, b: int, n: int)
    requires
        repeats(h, d, a, b, n),
    ensures
        0 <= n,
        0 <= a <= b <= d.len(),
    decreases n,
{
    if n > 0 {
        let m = lemma_last_copy(h, d, a, b, n);
        lemma_repeats_bounds(h, d, a, m, n - 1);
    }
}

/// The spans of parts are in order.
pub proof fn lemma_concat_bounds(h: Regex, n: int, d: Seq<u8>, a: int, b: int)
    requires
        h is Concat,
        n <= h->Concat_0@.len(),
        concat_matches(h, n, d, a, b),
    ensures
        0 <= a <= b <= d.len(),
    decreases n,
{
    if n > 0 {
        let m = lemma_last_part(h, n, d, a, b);
        lemma_concat_bounds(h, n - 1, d, a, m);
    }
}

/// A class matches one byte or more.
proof fn lemma_class_len(class: CharClass, s: Seq<u8>)
    requires
        class_matches(class, s),
    ensures
        s.len() >= 1,
{
}

/// No match is shorter than the shape of the pattern says.
pub proof fn lemma_shortest(h: Regex, d: Seq<u8>, a: int, b: int)
    requires
        matched(h, d, a, b),
    ensures
        shortest(h) <= b - a,
    decreases h, 1int, 0int,
{
    match h {
        Regex::Literal(bytes) => {
            assert(d.subrange(a, b).len() == b - a);
        },
        Regex::Class(class) => {
            lemma_class_len(class, d.subrange(a, b));
        },
        Regex::Capture(sub) => {
            lemma_shortest(*sub, d, a, b);
        },
        Regex::Repetition(rep) => {
            let n = choose|n: int| #[trigger]
                split_at(n) && rep.min <= n && (rep.max matches Some(max) ==> n <= max) && repeats(
                    *rep.sub,
                    d,
                    a,
                    b,
                    n,
                );
            lemma_shortest_copies(*rep.sub, d, a, b, n);
            let k = shortest(*rep.sub) as int;
            assert(rep.min * k <= n * k) by (nonlinear_arith)
                requires
                    rep.min <= n,
                    k >= 0,
            ;
        },
        Regex::Concat(subs) => {
            lemma_shortest_parts(h, subs@.len() as int, d, a, b);
        },
        Regex::Alternation(subs) => {
            let i = choose|i: int| #[trigger]
                split_at(i) && 0 <= i < subs@.len() && matched(subs@[i], d, a, b);
            lemma_shortest(subs@[i], d, a, b);
            lemma_shortest_branch(h, subs@.len() as int, i);
        },
        _ => {},
    }
}

proof fn lemma_shortest_copies(h: Regex, d: Seq<u8>, a: int, b: int, n: int)
    requires
        repeats(h, d, a, b, n),
    ensures
        n * shortest(h) <= b - a,
    decreases h, 2int, n,
{
    lemma_repeats_bounds(h, d, a, b, n);
    let k = shortest(h) as int;
    if n > 0 {
        let m = lemma_last_copy(h, d, a, b, n);
        lemma_shortest_copies(h, d, a, m, n - 1);
        lemma_shortest(h, d, m, b);
        assert(n * k == (n - 1) * k + k) by (nonlinear_arith);
    } else {
        assert(n * k == 0) by (nonlinear_arith)
            requires
                n == 0,
        ;
    }
}

pub proof fn lemma_shortest_parts(h: Regex, n: int, d: Seq<u8>, a: int, b: int)
    requires
        h is Concat,
        n <= h->Concat_0@.len(),
        concat_matches(h, n, d, a, b),
    ensures
        shortest_sum(h, n) <= b - a,
    decreases h, 0int, n,
{
    if n > 0 {
        let m = lemma_last_part(h, n, d, a, b);
        lemma_shortest_parts(h, n - 1, d, a, m);
        lemma_shortest(h->Concat_0@[n - 1], d, m, b);
    }
}

proof fn lemma_shortest_branch(h: Regex, n: int, i: int)
    requires
        h is Alternation,
        0 <= i < n <= h->Alternation_0@.len(),
    ensures
        shortest_branch(h, n) <= shortest(h->Alternation_0@[i]),
    decreases n,
{
    if i < n - 1 {
        lemma_shortest_branch(h, n - 1, i);
    }
}

/// A class without the line break matches none.
proof fn lemma_class_newline(class: CharClass, s: Seq<u8>)
    requires
        class_matches(class, s),
        !class_newline(class),
    ensures
        forall|i: int| 0 <= i < s.len() ==> #[trigger] s[i] != 10,
{
    match class {
        CharClass::Unicode(ranges) => {
            let cp = choose|cp: int|
                is_scalar(cp) && #[trigger] in_ranges(ranges@, cp) && s == utf8(cp);
            lemma_utf8_bytes(cp);
        },
        CharClass::Bytes(ranges) => {},
    }
}

/// A match that may hold no line break lies on one line.
proof fn lemma_one_line(h: Regex, d: Seq<u8>, a: int, b: int)
    requires
        matched(h, d, a, b),
        !allows_newline(h),
    ensures
        on_one_line(d, a, b),
    decreases h, 1int, 0int,
{
    let s = d.subrange(a, b);
    assert forall|i: int| a <= i < b implies d[i] == #[trigger] s[i - a] by {}
    match h {
        Regex::Literal(bytes) => {
            assert forall|i: int| a <= i < b implies #[trigger] d[i] != 10 by {
                assert(bytes@.contains(s[i - a]));
            }
        },
        Regex::Class(class) => {
            lemma_class_newline(class, s);
            assert forall|i: int| a <= i < b implies #[trigger] d[i] != 10 by {
                assert(s[i - a] != 10);
            }
        },
        Regex::Capture(sub) => {
            lemma_one_line(*sub, d, a, b);
        },
        Regex::Repetition(rep) => {
            let n = choose|n: int| #[trigger]
                split_at(n) && rep.min <= n && (rep.max matches Some(max) ==> n <= max) && repeats(
                    *rep.sub,
                    d,
                    a,
                    b,
                    n,
                );
            if rep.max == Some(0u32) {
                assert(n <= 0);
            } else {
                lemma_one_line_copies(*rep.sub, d, a, b, n);
            }
        },
        Regex::Concat(subs) => {
            lemma_one_line_parts(h, subs@.len() as int, d, a, b);
        },
        Regex::Alternation(subs) => {
            let i = choose|i: int| #[trigger]
                split_at(i) && 0 <= i < subs@.len() && matched(subs@[i], d, a, b);
            lemma_one_line(subs@[i], d, a, b);
        },
        _ => {},
    }
}

proof fn lemma_one_line_copies(h: Regex, d: Seq<u8>, a: int, b: int, n: int)
    requires
        repeats(h, d, a, b, n),
        !allows_newline(h),
    ensures
        on_one_line(d, a, b),
    decreases h, 2int, n,
{
    if n > 0 {
        let m = lemma_last_copy(h, d, a, b, n);
        lemma_one_line_copies(h, d, a, m, n - 1);
        lemma_one_line(h, d, m, b);
    }
}

proof fn lemma_one_line_parts(h: Regex, n: int, d: Seq<u8>, a: int, b: int)
    requires
        h is Concat,
        n <= h->Concat_0@.len(),
        concat_matches(h, n, d, a, b),
        !allows_newline(h),
    ensures
        on_one_line(d, a, b),
    decreases h, 0int, n,
{
    if n > 0 {
        let m = lemma_last_part(h, n, d, a, b);
        lemma_one_line_parts(h, n - 1, d, a, m);
        assert(!allows_newline(h->Concat_0@[n - 1]));
        lemma_one_line(h->Concat_0@[n - 1], d, m, b);
    }
}

/// A byte occurs in a text as often as in its two parts together.
proof fn lemma_occurrences_split(s: Seq<u8>, t: Seq<u8>, c: u8)
    ensures
        occurrences(s + t, c) == occurrences(s, c) + occurrences(t, c),
    decreases t.len(),
{
    if t.len() == 0 {
        assert(s + t =~= s);
    } else {
        assert((s + t).drop_last() =~= s + t.drop_last());
        lemma_occurrences_split(s, t.drop_last(), c);
    }
}

proof fn lemma_span_split(d: Seq<u8>, a: int, m: int, b: int, c: u8)
    requires
        0 <= a <= m <= b <= d.len(),
    ensures
        occurrences(d.subrange(a, b), c) == occurrences(d.subrange(a, m), c) + occurrences(
            d.subrange(m, b),
            c,
        ),
{
    lemma_occurrences_split(d.subrange(a, m), d.subrange(m, b), c);
    assert(d.subrange(a, m) + d.subrange(m, b) =~= d.subrange(a, b));
}

/// What stands in a document is in its counts.
pub proof fn lemma_occurs(s: Seq<u8>, i: int)
    requires
        0 <= i < s.len(),
    ensures
        occurrences(s, s[i]) > 0,
    decreases s.len(),
{
    if i < s.len() - 1 {
        lemma_occurs(s.drop_last(), i);
        assert(s.drop_last()[i] == s[i]);
    }
}

/// A match holds each byte as often as the shape of the pattern says.
proof fn lemma_counts(h: Regex, d: Seq<u8>, a: int, b: int, c: u8)
    requires
        matched(h, d, a, b),
    ensures
        0 <= least_count(h, c) <= occurrences(d.subrange(a, b), c),
    decreases h, 1int, 0int,
{
    match h {
        Regex::Capture(sub) => {
            lemma_counts(*sub, d, a, b, c);
        },
        Regex::Repetition(rep) => {
            let n = choose|n: int| #[trigger]
                split_at(n) && rep.min <= n && (rep.max matches Some(max) ==> n <= max) && repeats(
                    *rep.sub,
                    d,
                    a,
                    b,
                    n,
                );
            if rep.min == 0 {
                assert(least_count(*rep.sub, c) * rep.min == 0) by (nonlinear_arith)
                    requires
                        rep.min == 0,
                ;
            } else {
                lemma_counts_copies(*rep.sub, d, a, b, n, c);
                let k = least_count(*rep.sub, c);
                assert(0 <= k * rep.min <= n * k) by (nonlinear_arith)
                    requires
                        0 <= rep.min <= n,
                        k >= 0,
                ;
            }
        },
        Regex::Concat(subs) => {
            lemma_counts_parts(h, subs@.len() as int, d, a, b, c);
        },
        Regex::Alternation(subs) => {
            let i = choose|i: int| #[trigger]
                split_at(i) && 0 <= i < subs@.len() && matched(subs@[i], d, a, b);
            lemma_counts(subs@[i], d, a, b, c);
            lemma_counts_branch(h, subs@.len() as int, i, c);
        },
        _ => {},
    }
}

/// No count is negative.
proof fn lemma_counts_positive(h: Regex, c: u8)
    ensures
        least_count(h, c) >= 0,
    decreases h, 1int, 0int,
{
    match h {
        Regex::Capture(sub) => {
            lemma_counts_positive(*sub, c);
        },
        Regex::Repetition(rep) => {
            lemma_counts_positive(*rep.sub, c);
            let k = least_count(*rep.sub, c);
            assert(0 <= k * rep.min) by (nonlinear_arith)
                requires
                    0 <= rep.min,
                    k >= 0,
            ;
        },
        Regex::Concat(subs) => {
            lemma_sum_positive(h, c, subs@.len() as int);
        },
        Regex::Alternation(subs) => {
            lemma_branch_positive(h, c, subs@.len() as int);
        },
        _ => {},
    }
}

proof fn lemma_sum_positive(h: Regex, c: u8, n: int)
    requires
        h is Concat,
    ensures
        count_sum(h, c, n) >= 0,
    decreases h, 0int, n,
{
    if 0 < n <= h->Concat_0@.len() {
        lemma_sum_positive(h, c, n - 1);
        lemma_counts_positive(h->Concat_0@[n - 1], c);
    }
}

proof fn lemma_branch_positive(h: Regex, c: u8, n: int)
    requires
        h is Alternation,
    ensures
        count_branch(h, c, n) >= 0,
    decreases h, 0int, n,
{
    if 0 < n <= h->Alternation_0@.len() {
        lemma_branch_positive(h, c, n - 1);
        lemma_counts_positive(h->Alternation_0@[n - 1], c);
    }
}

proof fn lemma_counts_copies(h: Regex, d: Seq<u8>, a: int, b: int, n: int, c: u8)
    requires
        repeats(h, d, a, b, n),
    ensures
        least_count(h, c) >= 0,
        n * least_count(h, c) <= occurrences(d.subrange(a, b), c),
    decreases h, 2int, n,
{
    lemma_repeats_bounds(h, d, a, b, n);
    lemma_counts_positive(h, c);
    let k = least_count(h, c);
    if n > 0 {
        let m = lemma_last_copy(h, d, a, b, n);
        lemma_repeats_bounds(h, d, a, m, n - 1);
        lemma_counts_copies(h, d, a, m, n - 1, c);
        lemma_counts(h, d, m, b, c);
        lemma_span_split(d, a, m, b, c);
        assert(n * k == (n - 1) * k + k) by (nonlinear_arith);
    } else {
        assert(n * k == 0) by (nonlinear_arith)
            requires
                n == 0,
        ;
    }
}

proof fn lemma_counts_parts(h: Regex, n: int, d: Seq<u8>, a: int, b: int, c: u8)
    requires
        h is Concat,
        n <= h->Concat_0@.len(),
        concat_matches(h, n, d, a, b),
    ensures
        0 <= count_sum(h, c, n) <= occurrences(d.subrange(a, b), c),
    decreases h, 0int, n,
{
    if n > 0 {
        let m = lemma_last_part(h, n, d, a, b);
        lemma_concat_bounds(h, n - 1, d, a, m);
        lemma_counts_parts(h, n - 1, d, a, m, c);
        lemma_counts(h->Concat_0@[n - 1], d, m, b, c);
        lemma_span_split(d, a, m, b, c);
    }
}

proof fn lemma_counts_branch(h: Regex, n: int, i: int, c: u8)
    requires
        h is Alternation,
        0 <= i < n <= h->Alternation_0@.len(),
    ensures
        0 <= count_branch(h, c, n) <= least_count(h->Alternation_0@[i], c),
    decreases n,
{
    lemma_branch_positive(h, c, n);
    if i < n - 1 {
        lemma_counts_branch(h, n - 1, i, c);
    }
}

/// A longer text starts (or ends) with what its edge starts (or ends) with.
proof fn lemma_edge_literal(lit: Seq<u8>, d: Seq<u8>, edge: Edge)
    requires
        lit.len() <= d.len(),
        lit == (match edge {
            Edge::Start => d.subrange(0, lit.len() as int),
            Edge::End => d.subrange(d.len() - lit.len(), d.len() as int),
        }),
    ensures
        ({
            let n = lit.len() as int;
            let keep = if n < EdgeBytes::CAPACITY {
                n
            } else {
                EdgeBytes::CAPACITY as int
            };
            match edge {
                Edge::Start => extends(
                    Order::Prefix,
                    lit.subrange(0, keep),
                    d.subrange(0, edge_len(d)),
                ),
                Edge::End => extends(
                    Order::Suffix,
                    lit.subrange(n - keep, n),
                    d.subrange(d.len() - edge_len(d), d.len() as int),
                ),
            }
        }),
{
    let n = lit.len() as int;
    let keep = if n < EdgeBytes::CAPACITY {
        n
    } else {
        EdgeBytes::CAPACITY as int
    };
    match edge {
        Edge::Start => {
            assert(lit.subrange(0, keep) =~= d.subrange(0, edge_len(d)).subrange(0, keep));
        },
        Edge::End => {
            let have = d.subrange(d.len() - edge_len(d), d.len() as int);
            assert(lit.subrange(n - keep, n) =~= have.subrange(have.len() - keep, have.len() as int));
        },
    }
}

/// A document with a match meets what the pattern asks of its summary.
proof fn lemma_meets(h: Regex, d: Seq<u8>, a: int, b: int, summary: ScanSummary)
    requires
        h.wf(),
        matched(h, d, a, b),
        summarizes(summary, d),
    ensures
        meets(h, summary),
{
    lemma_shortest(h, d, a, b);
    if !allows_newline(h) {
        lemma_one_line(h, d, a, b);
        assert(on_one_line(d, a, b));
    }
    assert forall|c: u8|
        summary.byte_counts.tally()[c as int] >= #[trigger] least_count(h, c)
            || summary.byte_counts.tally()[c as int] == 255 by {
        lemma_counts(h, d, a, b, c);
        lemma_span_split(d, 0, a, d.len() as int, c);
        lemma_span_split(d, a, b, d.len() as int, c);
        assert(d.subrange(0, d.len() as int) =~= d);
        assert(occurrences(d.subrange(a, b), c) <= occurrences(d, c));
        assert(summary.byte_counts.tally()[c as int] == clamp_u8(occurrences(d, c) as int));
    }
    lemma_required(h, d, a, b);
    let sets = required_sets(h);
    assert forall|i: int| 0 <= i < sets.len() implies some_counted(#[trigger] sets[i], summary) by {
        assert(holds_one(d, a, b, sets[i]));
        let p = choose|p: int| a <= p < b && sets[i].contains(#[trigger] d[p]);
        lemma_occurs(d, p);
        assert(summary.byte_counts.tally()[d[p] as int] == clamp_u8(occurrences(d, d[p]) as int));
        assert(sets[i].contains(d[p]));
    }
    if let Some(set) = line_bytes(h, Edge::Start) {
        lemma_anchored(h, d, a, b, Edge::Start);
        let p = choose|p: int|
            0 <= p < d.len() && set.contains(#[trigger] d[p]) && line_edge_at(d, p, Edge::Start);
        assert(starts_line(d, d[p]));
        assert(set.contains(d[p]) && summary.line_start_bytes.has(d[p]));
    }
    if let Some(set) = line_bytes(h, Edge::End) {
        lemma_anchored(h, d, a, b, Edge::End);
        let p = choose|p: int|
            0 <= p < d.len() && set.contains(#[trigger] d[p]) && line_edge_at(d, p, Edge::End);
        assert(ends_line(d, d[p]));
        assert(set.contains(d[p]) && summary.line_end_bytes.has(d[p]));
    }
    if doc_literal(h, Edge::Start) is Some {
        lemma_doc_literal(h, d, a, b, Edge::Start);
        lemma_edge_literal(from_edge(h->Concat_0@, Edge::Start, 1)->Literal_0@, d, Edge::Start);
    }
    if doc_literal(h, Edge::End) is Some {
        lemma_doc_literal(h, d, a, b, Edge::End);
        lemma_edge_literal(from_edge(h->Concat_0@, Edge::End, 1)->Literal_0@, d, Edge::End);
    }
}

/// A document with a match meets every condition that the pattern puts on its
/// summary.
pub proof fn law_needs_never_miss(
    needs: RootNeeds,
    h: Regex,
    d: Seq<u8>,
    a: int,
    b: int,
    summary: ScanSummary,
)
    requires
        h.wf(),
        needs.describes(h),
        matched(h, d, a, b),
        summarizes(summary, d),
    ensures
        forall|i: int| 0 <= i < needs.list().len() ==> need_met(#[trigger] needs.list()[i], summary),
{
    lemma_meets(h, d, a, b, summary);
    lemma_needs_met(needs, h, summary);
}

} // verus!
