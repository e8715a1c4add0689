//! The bytes a match shows: at its edges, next to an anchor, and anywhere.

use vstd::prelude::*;

use crate::query::edges::{
    alternation_shown, anchored_branches, anchored_bytes, byte_span, class_bytes, class_edge,
    concat_shown, doc_literal, from_edge, scalar_edge, shown_bytes, tail_shown, Edge,
};
use crate::query::hir::{
    class_matches, concat_matches, in_ranges, matched, repeats, split_at, Assertion, CharClass,
    Regex,
};
use crate::query::needs::classes::{
    branch_sets, by_size, class_sets, concat_sets, paired, required_sets, set_rank, set_runs,
    useful,
};
use crate::query::plan::tune::{lemma_push_member, lemma_ranked_members};
use crate::query::soundness::lowered::{line_closes, line_opens};
use crate::query::soundness::needed::{
    lemma_concat_bounds, lemma_last_copy, lemma_last_part, lemma_repeats_bounds,
};
use crate::query::utf8::{is_scalar, lemma_utf8_bytes, utf8};

verus! {

/// Earlier ranges keep their bytes.
proof fn lemma_class_edge(class: CharClass, edge: Edge, i: int, n: int, c: u8)
    requires
        0 <= i < n,
        class_edge(class, edge, i + 1).contains(c),
    ensures
        class_edge(class, edge, n).contains(c),
    decreases n,
{
    if i < n - 1 {
        lemma_class_edge(class, edge, i, n - 1, c);
    }
}

/// Lead bytes rise with their scalars.
proof fn lemma_lead_rises(x: int, y: int)
    requires
        0 <= x <= y <= 0x10FFFF,
    ensures
        utf8(x)[0] <= utf8(y)[0],
{
}

/// What a class matches shows its bytes at both edges.
proof fn lemma_class_shown(class: CharClass, s: Seq<u8>, edge: Edge)
    requires
        class.wf(),
        class_matches(class, s),
    ensures
        s.len() > 0,
        class_bytes(class, edge).contains(
            match edge {
                Edge::Start => s[0],
                Edge::End => s.last(),
            },
        ),
{
    let c = match edge {
        Edge::Start => s[0],
        Edge::End => s.last(),
    };
    match class {
        CharClass::Unicode(ranges) => {
            let cp = choose|cp: int|
                is_scalar(cp) && #[trigger] in_ranges(ranges@, cp) && s == utf8(cp);
            let i = choose|i: int|
                0 <= i < ranges@.len() && (#[trigger] ranges@[i]).0 <= cp <= ranges@[i].1;
            let (lo, hi) = (ranges@[i].0 as int, ranges@[i].1 as int);
            lemma_utf8_bytes(cp);
            lemma_lead_rises(lo, cp);
            lemma_lead_rises(cp, hi);
            assert(scalar_edge(lo, hi, edge).contains(c)) by {
                if edge is End && cp >= 0x80 {
                    assert(byte_span(0x80, 0xBF).contains(c));
                }
            }
            assert(class_edge(class, edge, i + 1).contains(c));
            lemma_class_edge(class, edge, i, ranges@.len() as int, c);
        },
        CharClass::Bytes(ranges) => {
            let i = choose|i: int|
                0 <= i < ranges@.len() && (#[trigger] ranges@[i]).0 <= s[0] <= ranges@[i].1;
            assert(byte_span(ranges@[i].0 as int, ranges@[i].1 as int).contains(c));
            assert(class_edge(class, edge, i + 1).contains(c));
            lemma_class_edge(class, edge, i, ranges@.len() as int, c);
        },
    }
}

/// The byte of a span at an edge.
pub open spec fn edge_byte(d: Seq<u8>, a: int, b: int, edge: Edge) -> u8 {
    match edge {
        Edge::Start => d[a],
        Edge::End => d[b - 1],
    }
}

/// The span's edge byte is one of the set, or the span is empty and may be.
pub open spec fn shows(d: Seq<u8>, a: int, b: int, edge: Edge, shown: (Set<u8>, bool)) -> bool {
    &&& a < b ==> shown.0.contains(edge_byte(d, a, b, edge))
    &&& a == b ==> shown.1
}

/// A match shows at its edge one of the bytes that the pattern can show.
pub proof fn lemma_shown(h: Regex, d: Seq<u8>, a: int, b: int, edge: Edge)
    requires
        h.wf(),
        matched(h, d, a, b),
    ensures
        shows(d, a, b, edge, shown_bytes(h, edge)),
    decreases h, 1int, 0int,
{
    let s = d.subrange(a, b);
    match h {
        Regex::Literal(bytes) => {
            assert(s.len() == b - a);
            if a < b {
                assert(s[0] == d[a]);
                assert(s.last() == d[b - 1]);
            }
        },
        Regex::Class(class) => {
            lemma_class_shown(class, s, edge);
            assert(s[0] == d[a]);
            assert(s.last() == d[b - 1]);
        },
        Regex::Capture(sub) => {
            lemma_shown(*sub, d, a, b, edge);
        },
        Regex::Repetition(rep) => {
            let n = choose|n: int| #[trigger]
                split_at(n) && rep.min <= n && (rep.max matches Some(max) ==> n <= max) && repeats(
                    *rep.sub,
                    d,
                    a,
                    b,
                    n,
                );
            lemma_shown_copies(*rep.sub, d, a, b, n, edge);
        },
        Regex::Concat(subs) => {
            let n = subs@.len() as int;
            match edge {
                Edge::Start => {
                    lemma_shown_parts(h, n, d, a, b);
                },
                Edge::End => {
                    assert(concat_shown(h, edge, 0) == (Set::<u8>::empty(), true));
                    lemma_shown_tail(h, 0, d, a, b, b);
                },
            }
        },
        Regex::Alternation(subs) => {
            let i = choose|i: int| #[trigger]
                split_at(i) && 0 <= i < subs@.len() && matched(subs@[i], d, a, b);
            lemma_shown(subs@[i], d, a, b, edge);
            lemma_shown_branch(h, edge, subs@.len() as int, i);
        },
        _ => {},
    }
}

proof fn lemma_shown_copies(h: Regex, d: Seq<u8>, a: int, b: int, n: int, edge: Edge)
    requires
        h.wf(),
        repeats(h, d, a, b, n),
    ensures
        shows(d, a, b, edge, (shown_bytes(h, edge).0, shown_bytes(h, edge).1 || n == 0)),
    decreases h, 2int, n,
{
    lemma_repeats_bounds(h, d, a, b, n);
    if n > 0 {
        let m = lemma_last_copy(h, d, a, b, n);
        lemma_repeats_bounds(h, d, a, m, n - 1);
        lemma_shown_copies(h, d, a, m, n - 1, edge);
        lemma_shown(h, d, m, b, edge);
    }
}

/// The first `n` parts show their bytes at the start.
proof fn lemma_shown_parts(h: Regex, n: int, d: Seq<u8>, a: int, b: int)
    requires
        h is Concat,
        h.wf(),
        n <= h->Concat_0@.len(),
        concat_matches(h, n, d, a, b),
    ensures
        shows(d, a, b, Edge::Start, concat_shown(h, Edge::Start, n)),
    decreases h, 0int, n,
{
    if n > 0 {
        let m = lemma_last_part(h, n, d, a, b);
        lemma_concat_bounds(h, n - 1, d, a, m);
        lemma_shown_parts(h, n - 1, d, a, m);
        lemma_shown(h->Concat_0@[n - 1], d, m, b, Edge::Start);
    }
}

/// Where the last `k` parts show their bytes at the end, all parts do.
proof fn lemma_shown_tail(h: Regex, k: int, d: Seq<u8>, a: int, m: int, b: int)
    requires
        h is Concat,
        h.wf(),
        0 <= k <= h->Concat_0@.len(),
        0 <= m <= b <= d.len(),
        concat_matches(h, h->Concat_0@.len() - k, d, a, m),
        shows(d, m, b, Edge::End, concat_shown(h, Edge::End, k)),
    ensures
        shows(d, a, b, Edge::End, concat_shown(h, Edge::End, h->Concat_0@.len() as int)),
    decreases h, 0int, h->Concat_0@.len() - k,
{
    let subs = h->Concat_0;
    let n = subs@.len() - k;
    lemma_concat_bounds(h, n, d, a, m);
    if n > 0 {
        let m2 = lemma_last_part(h, n, d, a, m);
        lemma_concat_bounds(h, n - 1, d, a, m2);
        lemma_shown(subs@[n - 1], d, m2, m, Edge::End);
        assert(subs@[subs@.len() - (k + 1)] == subs@[n - 1]);
        lemma_shown_tail(h, k + 1, d, a, m2, b);
    }
}

proof fn lemma_shown_branch(h: Regex, edge: Edge, n: int, i: int)
    requires
        h is Alternation,
        0 <= i < n <= h->Alternation_0@.len(),
    ensures
        forall|c: u8| #[trigger]
            shown_bytes(h->Alternation_0@[i], edge).0.contains(c) ==> alternation_shown(
                h,
                edge,
                n,
            ).0.contains(c),
        shown_bytes(h->Alternation_0@[i], edge).1 ==> alternation_shown(h, edge, n).1,
    decreases n,
{
    if i < n - 1 {
        lemma_shown_branch(h, edge, n - 1, i);
    }
}

/// Past a part that is never empty, the shown bytes stay the same.
proof fn lemma_shown_closed(h: Regex, edge: Edge, i: int, n: int)
    requires
        h is Concat,
        0 <= i <= n <= h->Concat_0@.len(),
        !concat_shown(h, edge, i).1,
    ensures
        concat_shown(h, edge, n) == concat_shown(h, edge, i),
    decreases n,
{
    if i < n {
        lemma_shown_closed(h, edge, i, n - 1);
    }
}

/// The bytes up to the first part that is never empty are those that the
/// whole concatenation shows.
proof fn lemma_tail_shown(h: Regex, edge: Edge, i: int, set: Set<u8>)
    requires
        h is Concat,
        0 <= i <= h->Concat_0@.len(),
        concat_shown(h, edge, i) == (set, true),
        tail_shown(h->Concat_0@, edge, i, set) is Some,
    ensures
        concat_shown(h, edge, h->Concat_0@.len() as int) == (
            tail_shown(h->Concat_0@, edge, i, set)->0,
            false,
        ),
    decreases h->Concat_0@.len() - i,
{
    let subs = h->Concat_0@;
    let (more, empty) = shown_bytes(from_edge(subs, edge, i), edge);
    assert(subs[subs.len() - (i + 1)] == subs[subs.len() - 1 - i]);
    assert(concat_shown(h, edge, i + 1) == (set.union(more), empty));
    if empty {
        lemma_tail_shown(h, edge, i + 1, set.union(more));
    } else {
        lemma_shown_closed(h, edge, i + 1, subs.len() as int);
    }
}

/// The first part starts a match.
proof fn lemma_first_part(h: Regex, n: int, d: Seq<u8>, a: int, b: int) -> (m: int)
    requires
        h is Concat,
        0 < n <= h->Concat_0@.len(),
        concat_matches(h, n, d, a, b),
    ensures
        matched(h->Concat_0@[0], d, a, m),
        n > 1 ==> a <= m <= b,
        n == 1 ==> m == b,
    decreases n,
{
    let m = lemma_last_part(h, n, d, a, b);
    if n == 1 {
        assert(concat_matches(h, 0, d, a, m));
        b
    } else {
        lemma_concat_bounds(h, n - 1, d, a, m);
        lemma_first_part(h, n - 1, d, a, m)
    }
}

/// The position before or after which an edge byte stands.
pub open spec fn line_edge_at(d: Seq<u8>, p: int, edge: Edge) -> bool {
    match edge {
        Edge::Start => line_opens(d, p),
        Edge::End => line_closes(d, p + 1),
    }
}

/// A line of the document has a byte of the set at this edge.
pub open spec fn line_shows(d: Seq<u8>, edge: Edge, set: Set<u8>) -> bool {
    exists|p: int| 0 <= p < d.len() && set.contains(#[trigger] d[p]) && line_edge_at(d, p, edge)
}

/// A match of an anchored pattern shows its bytes at a line's edge.
pub proof fn lemma_anchored(h: Regex, d: Seq<u8>, a: int, b: int, edge: Edge)
    requires
        h.wf(),
        matched(h, d, a, b),
        anchored_bytes(h, edge) is Some,
    ensures
        line_shows(d, edge, anchored_bytes(h, edge)->0),
    decreases h,
{
    match h {
        Regex::Capture(sub) => {
            lemma_anchored(*sub, d, a, b, edge);
        },
        Regex::Repetition(rep) => {
            let n = choose|n: int| #[trigger]
                split_at(n) && rep.min <= n && (rep.max matches Some(max) ==> n <= max) && repeats(
                    *rep.sub,
                    d,
                    a,
                    b,
                    n,
                );
            let m = lemma_last_copy(*rep.sub, d, a, b, n);
            lemma_anchored(*rep.sub, d, m, b, edge);
        },
        Regex::Alternation(subs) => {
            let i = choose|i: int| #[trigger]
                split_at(i) && 0 <= i < subs@.len() && matched(subs@[i], d, a, b);
            lemma_anchored_branch(h, edge, subs@.len() as int, i);
            lemma_anchored(subs@[i], d, a, b, edge);
            let set = anchored_bytes(subs@[i], edge)->0;
            let p = choose|p: int|
                0 <= p < d.len() && set.contains(#[trigger] d[p]) && line_edge_at(d, p, edge);
            assert((anchored_bytes(h, edge)->0).contains(d[p]));
        },
        Regex::Concat(subs) => {
            let n = subs@.len() as int;
            let set = anchored_bytes(h, edge)->0;
            assert(concat_shown(h, edge, 0) == (Set::<u8>::empty(), true));
            assert(shown_bytes(from_edge(subs@, edge, 0), edge) == (Set::<u8>::empty(), true));
            assert(subs@[n - 1] == from_edge(subs@, Edge::End, 0));
            assert(Set::<u8>::empty().union(Set::empty()) =~= Set::empty());
            assert(concat_shown(h, edge, 1) == (Set::<u8>::empty(), true));
            lemma_tail_shown(h, edge, 1, Set::empty());
            lemma_shown(h, d, a, b, edge);
            assert(a < b);
            assert(concat_matches(h, n, d, a, b));
            match edge {
                Edge::Start => {
                    let m = lemma_first_part(h, n, d, a, b);
                    assert(line_opens(d, a));
                    assert(set.contains(d[a]) && line_edge_at(d, a, edge));
                },
                Edge::End => {
                    let m = lemma_last_part(h, n, d, a, b);
                    assert(line_closes(d, b));
                    assert(set.contains(d[b - 1]) && line_edge_at(d, b - 1, edge));
                },
            }
        },
        _ => {},
    }
}

proof fn lemma_anchored_branch(h: Regex, edge: Edge, n: int, i: int)
    requires
        h is Alternation,
        0 <= i < n <= h->Alternation_0@.len(),
        anchored_branches(h, edge, n) is Some,
    ensures
        anchored_bytes(h->Alternation_0@[i], edge) is Some,
        forall|c: u8| #[trigger]
            (anchored_bytes(h->Alternation_0@[i], edge)->0).contains(c) ==> (anchored_branches(
                h,
                edge,
                n,
            )->0).contains(c),
    decreases n,
{
    if i < n - 1 {
        lemma_anchored_branch(h, edge, n - 1, i);
    }
}

/// A literal anchored to an edge of the text stands there.
pub proof fn lemma_doc_literal(h: Regex, d: Seq<u8>, a: int, b: int, edge: Edge)
    requires
        matched(h, d, a, b),
        doc_literal(h, edge) is Some,
    ensures
        ({
            let lit = from_edge(h->Concat_0@, edge, 1)->Literal_0@;
            &&& lit.len() <= d.len()
            &&& lit == match edge {
                Edge::Start => d.subrange(0, lit.len() as int),
                Edge::End => d.subrange(d.len() - lit.len(), d.len() as int),
            }
        }),
{
    let subs = h->Concat_0;
    let n = subs@.len() as int;
    assert(concat_matches(h, n, d, a, b));
    match edge {
        Edge::Start => {
            lemma_second_part(h, n, d, a, b);
        },
        Edge::End => {
            let m = lemma_last_part(h, n, d, a, b);
            let m2 = lemma_last_part(h, n - 1, d, a, m);
            assert(subs@[n - 2] == from_edge(subs@, edge, 1));
            assert(d.subrange(m2, m).len() == m - m2);
        },
    }
}

proof fn lemma_second_part(h: Regex, n: int, d: Seq<u8>, a: int, b: int)
    requires
        h is Concat,
        2 <= n <= h->Concat_0@.len(),
        concat_matches(h, n, d, a, b),
        h->Concat_0@[0] == Regex::Look(Assertion::Start),
        h->Concat_0@[1] is Literal,
    ensures
        ({
            let lit = h->Concat_0@[1]->Literal_0@;
            lit.len() <= d.len() && lit == d.subrange(0, lit.len() as int)
        }),
    decreases n,
{
    let m = lemma_last_part(h, n, d, a, b);
    if n == 2 {
        let m0 = lemma_last_part(h, 1, d, a, m);
        assert(concat_matches(h, 0, d, a, m0));
        assert(d.subrange(m, b).len() == b - m);
    } else {
        lemma_second_part(h, n - 1, d, a, m);
    }
}

/// A member of the set stands in the span.
pub open spec fn holds_one(d: Seq<u8>, a: int, b: int, set: Set<u8>) -> bool {
    exists|p: int| a <= p < b && set.contains(#[trigger] d[p])
}

/// The span holds a member of each set.
pub open spec fn holds_each(d: Seq<u8>, a: int, b: int, sets: Seq<Set<u8>>) -> bool {
    forall|i: int| 0 <= i < sets.len() ==> holds_one(d, a, b, #[trigger] sets[i])
}

proof fn lemma_holds_wider(d: Seq<u8>, a: int, m: int, n: int, b: int, sets: Seq<Set<u8>>)
    requires
        a <= m,
        n <= b,
        holds_each(d, m, n, sets),
    ensures
        holds_each(d, a, b, sets),
{
    assert forall|i: int| 0 <= i < sets.len() implies holds_one(d, a, b, #[trigger] sets[i]) by {
        let p = choose|p: int| m <= p < n && sets[i].contains(#[trigger] d[p]);
        assert(a <= p < b && sets[i].contains(d[p]));
    }
}

proof fn lemma_holds_members(
    d: Seq<u8>,
    a: int,
    b: int,
    sets: Seq<Set<u8>>,
    fewer: Seq<Set<u8>>,
)
    requires
        holds_each(d, a, b, sets),
        forall|s: Set<u8>| #[trigger] fewer.contains(s) ==> sets.contains(s),
    ensures
        holds_each(d, a, b, fewer),
{
    assert forall|i: int| 0 <= i < fewer.len() implies holds_one(d, a, b, #[trigger] fewer[i]) by {
        assert(fewer.contains(fewer[i]));
        let k = choose|k: int| 0 <= k < sets.len() && sets[k] == fewer[i];
        assert(holds_one(d, a, b, sets[k]));
    }
}

/// A match holds a member of each set that the pattern asks for.
proof fn lemma_sets(h: Regex, d: Seq<u8>, a: int, b: int)
    requires
        h.wf(),
        matched(h, d, a, b),
    ensures
        holds_each(d, a, b, class_sets(h)),
    decreases h, 1int, 0int,
{
    match h {
        Regex::Class(class) => {
            let s = d.subrange(a, b);
            lemma_class_shown(class, s, Edge::Start);
            assert(s[0] == d[a]);
            assert(holds_one(d, a, b, class_bytes(class, Edge::Start)));
        },
        Regex::Capture(sub) => {
            lemma_sets(*sub, d, a, b);
        },
        Regex::Repetition(rep) => {
            let n = choose|n: int| #[trigger]
                split_at(n) && rep.min <= n && (rep.max matches Some(max) ==> n <= max) && repeats(
                    *rep.sub,
                    d,
                    a,
                    b,
                    n,
                );
            if rep.min >= 1 {
                let m = lemma_last_copy(*rep.sub, d, a, b, n);
                lemma_repeats_bounds(*rep.sub, d, a, m, n - 1);
                lemma_sets(*rep.sub, d, m, b);
                lemma_holds_wider(d, a, m, b, b, class_sets(*rep.sub));
            }
        },
        Regex::Concat(subs) => {
            lemma_sets_parts(h, subs@.len() as int, d, a, b);
        },
        Regex::Alternation(subs) => {
            let i = choose|i: int| #[trigger]
                split_at(i) && 0 <= i < subs@.len() && matched(subs@[i], d, a, b);
            lemma_sets(subs@[i], d, a, b);
            lemma_sets_branch(h, subs@.len() as int, i, d, a, b);
        },
        _ => {},
    }
}

proof fn lemma_sets_parts(h: Regex, n: int, d: Seq<u8>, a: int, b: int)
    requires
        h is Concat,
        h.wf(),
        n <= h->Concat_0@.len(),
        concat_matches(h, n, d, a, b),
    ensures
        holds_each(d, a, b, concat_sets(h, n)),
    decreases h, 0int, n,
{
    if n > 0 {
        let m = lemma_last_part(h, n, d, a, b);
        lemma_concat_bounds(h, n - 1, d, a, m);
        lemma_sets_parts(h, n - 1, d, a, m);
        lemma_sets(h->Concat_0@[n - 1], d, m, b);
        lemma_holds_wider(d, a, a, m, b, concat_sets(h, n - 1));
        lemma_holds_wider(d, a, m, b, b, class_sets(h->Concat_0@[n - 1]));
    }
}

proof fn lemma_by_size(d: Seq<u8>, a: int, b: int, sets: Seq<Set<u8>>)
    requires
        holds_each(d, a, b, sets),
    ensures
        holds_each(d, a, b, by_size(sets)),
{
    lemma_ranked_members(sets, set_rank());
    lemma_holds_members(d, a, b, sets, by_size(sets));
}

proof fn lemma_sets_branch(h: Regex, n: int, i: int, d: Seq<u8>, a: int, b: int)
    requires
        h is Alternation,
        0 <= i < n <= h->Alternation_0@.len(),
        holds_each(d, a, b, class_sets(h->Alternation_0@[i])),
    ensures
        holds_each(d, a, b, branch_sets(h, n)),
    decreases n,
{
    let subs = h->Alternation_0@;
    let last = by_size(class_sets(subs[n - 1]));
    if n == 1 {
        lemma_by_size(d, a, b, class_sets(subs[0]));
    } else {
        let head = branch_sets(h, n - 1);
        let all = paired(head, last);
        if i < n - 1 {
            lemma_sets_branch(h, n - 1, i, d, a, b);
        } else {
            lemma_by_size(d, a, b, class_sets(subs[n - 1]));
        }
        assert forall|k: int| 0 <= k < all.len() implies holds_one(d, a, b, #[trigger] all[k]) by {
            let own = if i < n - 1 {
                head[k]
            } else {
                last[k]
            };
            assert(holds_one(d, a, b, own));
            let p = choose|p: int| a <= p < b && own.contains(#[trigger] d[p]);
            assert(all[k] == head[k].union(last[k]));
            assert(all[k].contains(d[p]));
        }
    }
}

proof fn lemma_useful_members(sets: Seq<Set<u8>>, s: Set<u8>)
    ensures
        useful(sets).contains(s) ==> sets.contains(s),
    decreases sets.len(),
{
    if sets.len() > 0 {
        let head = sets.drop_last();
        lemma_useful_members(head, s);
        lemma_push_member(useful(head), sets.last(), s);
        lemma_push_member(head, sets.last(), s);
        assert(head.push(sets.last()) =~= sets);
    }
}

proof fn lemma_run_members(sets: Seq<Set<u8>>, s: Set<u8>)
    ensures
        set_runs(sets).contains(s) ==> sets.contains(s),
    decreases sets.len(),
{
    if sets.len() > 1 {
        let head = sets.drop_last();
        lemma_run_members(head, s);
        lemma_push_member(set_runs(head), sets.last(), s);
        lemma_push_member(head, sets.last(), s);
        assert(head.push(sets.last()) =~= sets);
    }
}

/// A match holds a member of each set that a plan asks for.
pub proof fn lemma_required(h: Regex, d: Seq<u8>, a: int, b: int)
    requires
        h.wf(),
        matched(h, d, a, b),
    ensures
        holds_each(d, a, b, required_sets(h)),
{
    lemma_sets(h, d, a, b);
    let own = class_sets(h);
    let sized = by_size(useful(own));
    let all = set_runs(sized);
    lemma_ranked_members(useful(own), set_rank());
    assert forall|s: Set<u8>| #[trigger] required_sets(h).contains(s) implies own.contains(s) by {
        let k = choose|k: int| 0 <= k < required_sets(h).len() && required_sets(h)[k] == s;
        assert(all[k] == s);
        assert(all.contains(s));
        lemma_run_members(sized, s);
        assert(sized.contains(s));
        lemma_useful_members(own, s);
    }
    lemma_holds_members(d, a, b, own, required_sets(h));
}

} // verus!
