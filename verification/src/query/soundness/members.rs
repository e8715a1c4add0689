//! The summary of a class lists every string the class matches.

use vstd::prelude::*;

use crate::query::algebra::{leaf, lemma_push_contains, Op};
use crate::query::analyze::boundary::{
    boundary_strings, byte_ends, is_first_byte, is_last_byte, marked_strings, marks_of,
};
use crate::query::analyze::classes::{
    ascii_part, class_info, class_ranges, enumerated, mixed_split, point_string, range_strings,
    range_total, span_strings, strings_info, wide_part, MAX_CLASS,
};
use crate::query::analyze::fold::{folded_set, info_folded};
use crate::query::analyze::PlanContext;
use crate::query::flush::extends;
use crate::query::hir::{class_matches, in_byte_ranges, in_ranges, CharClass};
use crate::query::info::Info;
use crate::query::order::{cleaned, Order};
use crate::query::soundness::{has_edge, lemma_cleaned_contains, settled};
use crate::query::strings::{lowered, lowered_all};
use crate::query::utf8::{is_scalar, lemma_utf8_bytes, utf8};

verus! {

/// The summary lists the non-empty string `s`.
pub open spec fn lists(x: Info, s: Seq<u8>) -> bool {
    &&& s.len() > 0
    &&& x.exact matches Some(exact) ==> exact.contains(s)
    &&& x.exact is None ==> has_edge(Order::Prefix, x.prefix, s) && has_edge(
        Order::Suffix,
        x.suffix,
        s,
    )
    &&& x.plus_base is None
    &&& x.query == leaf(Op::All)
}

proof fn lemma_marked(marks: Seq<bool>, n: int, b: int)
    requires
        0 <= b < n <= marks.len(),
        n <= 256,
        marks[b],
    ensures
        marked_strings(marks, n).contains(seq![b as u8]),
    decreases n,
{
    let head = marked_strings(marks, n - 1);
    if b == n - 1 {
        lemma_push_contains(head, seq![b as u8], seq![b as u8]);
    } else {
        lemma_marked(marks, n - 1, b);
        lemma_push_contains(head, seq![(n - 1) as u8], seq![b as u8]);
    }
}

/// A marked byte, or the empty string, is in the boundary set.
proof fn lemma_boundary_edge(order: Order, marks: Seq<bool>, s: Seq<u8>)
    requires
        marks.len() == 256,
        s.len() > 0,
        marks[match order {
            Order::Prefix => s[0] as int,
            Order::Suffix => s.last() as int,
        }],
    ensures
        has_edge(order, boundary_strings(marks), s),
{
    let b = match order {
        Order::Prefix => s[0],
        Order::Suffix => s.last(),
    };
    let all = marked_strings(marks, 256);
    lemma_marked(marks, 256, b as int);
    let set = boundary_strings(marks);
    if all.len() > crate::query::analyze::boundary::MAX_BOUNDARY_BYTES {
        assert(set[0] == Seq::<u8>::empty());
        crate::query::soundness::lemma_extends_self(order, s);
        assert(set.contains(Seq::<u8>::empty()) && extends(order, Seq::<u8>::empty(), s));
    } else {
        lemma_cleaned_contains(Order::Prefix, all, seq![b]);
        match order {
            Order::Prefix => {
                assert(seq![b] =~= s.subrange(0, 1));
            },
            Order::Suffix => {
                assert(seq![b] =~= s.subrange(s.len() - 1, s.len() as int));
            },
        }
        assert(set.contains(seq![b]) && extends(order, seq![b], s));
    }
}

proof fn lemma_span_strings(unicode: bool, lo: int, hi: int, c: int)
    requires
        lo <= c <= hi,
        point_string(unicode, c) is Some,
    ensures
        span_strings(unicode, lo, hi).contains(point_string(unicode, c)->0),
    decreases hi - lo + 1,
{
    let head = span_strings(unicode, lo, hi - 1);
    if c < hi {
        lemma_span_strings(unicode, lo, hi - 1, c);
    }
    match point_string(unicode, hi) {
        Some(s) => lemma_push_contains(head, s, point_string(unicode, c)->0),
        None => {},
    }
}

pub proof fn lemma_range_strings(unicode: bool, ranges: Seq<(u32, u32)>, n: int, i: int, c: int)
    requires
        0 <= i < n <= ranges.len(),
        ranges[i].0 <= c <= ranges[i].1,
        point_string(unicode, c) is Some,
    ensures
        range_strings(unicode, ranges, n).contains(point_string(unicode, c)->0),
    decreases n,
{
    let s = point_string(unicode, c)->0;
    let head = range_strings(unicode, ranges, n - 1);
    let tail = span_strings(unicode, ranges[n - 1].0 as int, ranges[n - 1].1 as int);
    let all = head + tail;
    if i == n - 1 {
        lemma_span_strings(unicode, ranges[i].0 as int, ranges[i].1 as int, c);
        let k = choose|k: int| 0 <= k < tail.len() && tail[k] == s;
        assert(all[head.len() + k] == s);
    } else {
        lemma_range_strings(unicode, ranges, n - 1, i, c);
        let k = choose|k: int| 0 <= k < head.len() && head[k] == s;
        assert(all[k] == s);
    }
}

pub proof fn lemma_range_total_positive(ranges: Seq<(u32, u32)>, n: int, i: int)
    requires
        0 <= n <= ranges.len(),
        forall|k: int| 0 <= k < ranges.len() ==> (#[trigger] ranges[k]).0 <= ranges[k].1,
    ensures
        range_total(ranges, n) >= 0,
        0 <= i < n ==> range_total(ranges, n) > 0,
    decreases n,
{
    if n > 0 {
        lemma_range_total_positive(ranges, n - 1, i);
        assert(ranges[n - 1].0 <= ranges[n - 1].1);
    }
}

/// The string of a code point of the ranges is listed.
proof fn lemma_enumerated(unicode: bool, ranges: Seq<(u32, u32)>, c: int)
    requires
        in_ranges(ranges, c),
        0 <= c,
        point_string(unicode, c) is Some,
        forall|k: int| 0 <= k < ranges.len() ==> (#[trigger] ranges[k]).0 <= ranges[k].1,
    ensures
        lists(strings_info(enumerated(unicode, ranges)), point_string(unicode, c)->0),
{
    let s = point_string(unicode, c)->0;
    let i = choose|i: int| 0 <= i < ranges.len() && (#[trigger] ranges[i]).0 <= c <= ranges[i].1;
    lemma_range_total_positive(ranges, ranges.len() as int, i);
    lemma_range_strings(unicode, ranges, ranges.len() as int, i, c);
    let all = range_strings(unicode, ranges, ranges.len() as int);
    lemma_cleaned_contains(Order::Prefix, all, s);
    if unicode {
        lemma_utf8_bytes(c);
        let first = marks_of(|b: u8| is_first_byte(ranges, b));
        let last = marks_of(|b: u8| is_last_byte(ranges, b));
        assert(is_first_byte(ranges, s[0]));
        assert(is_last_byte(ranges, s.last()));
        lemma_boundary_edge(Order::Prefix, first, s);
        lemma_boundary_edge(Order::Suffix, last, s);
    } else {
        let ends = byte_ends(ranges);
        let marks = marks_of(|b: u8| in_ranges(ends, b as int));
        assert(ends[i].0 <= c <= ends[i].1);
        assert(marks[c]);
        lemma_boundary_edge(Order::Prefix, marks, s);
        lemma_boundary_edge(Order::Suffix, marks, s);
    }
}

/// Every string a class matches is the string of one of its code points.
proof fn lemma_class_point(class: CharClass, s: Seq<u8>) -> (c: int)
    requires
        class_matches(class, s),
    ensures
        in_ranges(class_ranges(class), c),
        0 <= c,
        point_string(class is Unicode, c) == Some(s),
{
    match class {
        CharClass::Unicode(ranges) => {
            choose|cp: int| is_scalar(cp) && #[trigger] in_ranges(ranges@, cp) && s == utf8(cp)
        },
        CharClass::Bytes(ranges) => {
            let i = choose|i: int|
                0 <= i < ranges@.len() && (#[trigger] ranges@[i]).0 <= s[0] <= ranges@[i].1;
            assert(class_ranges(class)[i].0 <= s[0] <= class_ranges(class)[i].1);
            assert(seq![s[0]] =~= s);
            s[0] as int
        },
    }
}

pub proof fn lemma_ranges_ordered(class: CharClass)
    requires
        class.wf(),
    ensures
        forall|k: int|
            0 <= k < class_ranges(class).len() ==> (#[trigger] class_ranges(class)[k]).0
                <= class_ranges(class)[k].1,
{
    match class {
        CharClass::Unicode(_) => {},
        CharClass::Bytes(ranges) => {
            assert forall|k: int| 0 <= k < class_ranges(class).len() implies (
            #[trigger] class_ranges(class)[k]).0 <= class_ranges(class)[k].1 by {
                assert(ranges@[k].0 <= ranges@[k].1);
            }
        },
    }
}

/// A class lists every string it matches.
pub proof fn lemma_class_info(class: CharClass, s: Seq<u8>)
    requires
        class.wf(),
        class_matches(class, s),
    ensures
        lists(class_info(class), s),
{
    let c = lemma_class_point(class, s);
    lemma_ranges_ordered(class);
    lemma_enumerated(class is Unicode, class_ranges(class), c);
}

pub proof fn lemma_parts(ranges: Seq<(u32, u32)>, n: int, i: int, c: int)
    requires
        0 <= n <= ranges.len(),
        forall|k: int| 0 <= k < ranges.len() ==> (#[trigger] ranges[k]).0 <= ranges[k].1,
    ensures
        0 <= i < n && ranges[i].0 <= c <= ranges[i].1 ==> (if c < 0x80 {
            in_ranges(ascii_part(ranges, n), c)
        } else {
            in_ranges(wide_part(ranges, n), c)
        }),
        forall|k: int|
            0 <= k < ascii_part(ranges, n).len() ==> (#[trigger] ascii_part(ranges, n)[k]).0
                <= ascii_part(ranges, n)[k].1,
        forall|k: int|
            0 <= k < wide_part(ranges, n).len() ==> (#[trigger] wide_part(ranges, n)[k]).0
                <= wide_part(ranges, n)[k].1,
    decreases n,
{
    if n > 0 {
        lemma_parts(ranges, n - 1, i, c);
        let (lo, hi) = ranges[n - 1];
        assert(ranges[n - 1].0 <= ranges[n - 1].1);
        let (a0, w0) = (ascii_part(ranges, n - 1), wide_part(ranges, n - 1));
        let (a, w) = (ascii_part(ranges, n), wide_part(ranges, n));
        if 0 <= i < n && ranges[i].0 <= c <= ranges[i].1 {
            if i == n - 1 {
                if c < 0x80 {
                    assert(a[a0.len() as int].0 <= c <= a[a0.len() as int].1);
                } else {
                    assert(w[w0.len() as int].0 <= c <= w[w0.len() as int].1);
                }
            } else if c < 0x80 {
                let k = choose|k: int| 0 <= k < a0.len() && (#[trigger] a0[k]).0 <= c <= a0[k].1;
                assert(a[k].0 <= c <= a[k].1);
            } else {
                let k = choose|k: int| 0 <= k < w0.len() && (#[trigger] w0[k]).0 <= c <= w0[k].1;
                assert(w[k].0 <= c <= w[k].1);
            }
        }
    }
}

/// One branch of a split class lists every string the class matches.
pub proof fn lemma_mixed_split(class: CharClass, s: Seq<u8>)
    requires
        class.wf(),
        class_matches(class, s),
        mixed_split(class) is Some,
    ensures
        lists((mixed_split(class)->0).0, s) || lists((mixed_split(class)->0).1, s),
{
    let c = lemma_class_point(class, s);
    if let CharClass::Unicode(ranges) = class {
        let n = ranges@.len() as int;
        let i = choose|i: int|
            0 <= i < ranges@.len() && (#[trigger] ranges@[i]).0 <= c <= ranges@[i].1;
        lemma_parts(ranges@, n, i, c);
        if c < 0x80 {
            lemma_enumerated(true, ascii_part(ranges@, n), c);
        } else {
            lemma_enumerated(true, wide_part(ranges@, n), c);
        }
    }
}

pub proof fn lemma_class_settled(class: CharClass)
    ensures
        settled(class_info(class)),
        mixed_split(class) matches Some((a, b)) ==> settled(a) && settled(b),
{
}

proof fn lemma_edge_folded(order: Order, set: Seq<Seq<u8>>, s: Seq<u8>)
    requires
        has_edge(order, set, s),
    ensures
        has_edge(order, folded_set(set), lowered(s)),
{
    let p = choose|p: Seq<u8>| #[trigger] set.contains(p) && extends(order, p, s);
    let n = choose|n: int| 0 <= n < set.len() && set[n] == p;
    assert(lowered_all(set)[n] == lowered(p));
    assert(lowered_all(set).contains(lowered(p)));
    lemma_cleaned_contains(Order::Prefix, lowered_all(set), lowered(p));
    match order {
        Order::Prefix => {
            assert(lowered(p) =~= lowered(s).subrange(0, p.len() as int));
        },
        Order::Suffix => {
            assert(lowered(p) =~= lowered(s).subrange(s.len() - p.len(), s.len() as int));
        },
    }
    assert(folded_set(set).contains(lowered(p)) && extends(order, lowered(p), lowered(s)));
}

/// The folded summary lists the folded string.
pub proof fn lemma_info_folded(ctx: PlanContext, x: Info, s: Seq<u8>)
    requires
        lists(x, s),
    ensures
        lists(
            info_folded(ctx, x),
            if ctx.fold {
                lowered(s)
            } else {
                s
            },
        ),
{
    if ctx.fold {
        match x.exact {
            Some(exact) => {
                let n = choose|n: int| 0 <= n < exact.len() && exact[n] == s;
                assert(lowered_all(exact)[n] == lowered(s));
                assert(lowered_all(exact).contains(lowered(s)));
                lemma_cleaned_contains(Order::Prefix, lowered_all(exact), lowered(s));
            },
            None => {
                lemma_edge_folded(Order::Prefix, x.prefix, s);
                lemma_edge_folded(Order::Suffix, x.suffix, s);
            },
        }
    }
}

/// In the folded space a known set is known by its lower-case forms, and by no
/// other string: the two cases of a letter are one.
pub proof fn law_folded_strings_are_lower_forms(ctx: PlanContext, x: Info, s: Seq<u8>)
    requires
        ctx.fold,
        x.exact is Some,
    ensures
        info_folded(ctx, x).exact matches Some(f) && (f.contains(s) <==> exists|u: Seq<u8>|
            (x.exact->0).contains(u) && s == #[trigger] lowered(u)),
{
    let e = x.exact->0;
    let all = lowered_all(e);
    lemma_cleaned_contains(Order::Prefix, all, s);
    if all.contains(s) {
        let i = choose|i: int| 0 <= i < all.len() && all[i] == s;
        assert(e.contains(e[i]) && s == lowered(e[i]));
    }
    if exists|u: Seq<u8>| e.contains(u) && s == #[trigger] lowered(u) {
        let u = choose|u: Seq<u8>| e.contains(u) && s == #[trigger] lowered(u);
        let i = choose|i: int| 0 <= i < e.len() && e[i] == u;
        assert(all[i] == s);
    }
}

pub proof fn lemma_folded_settled(ctx: PlanContext, x: Info)
    requires
        settled(x),
    ensures
        settled(info_folded(ctx, x)),
{
}

/// A string of a span is that of one of its code points.
proof fn lemma_span_member(unicode: bool, lo: int, hi: int, s: Seq<u8>)
    requires
        span_strings(unicode, lo, hi).contains(s),
    ensures
        exists|c: int| lo <= c <= hi && #[trigger] point_string(unicode, c) == Some(s),
    decreases hi - lo + 1,
{
    if lo <= hi {
        let head = span_strings(unicode, lo, hi - 1);
        let all = span_strings(unicode, lo, hi);
        let n = choose|n: int| 0 <= n < all.len() && all[n] == s;
        if n < head.len() {
            assert(head[n] == s);
            lemma_span_member(unicode, lo, hi - 1, s);
            let c = choose|c: int| lo <= c <= hi - 1 && #[trigger] point_string(unicode, c) == Some(
                s,
            );
            assert(lo <= c <= hi && point_string(unicode, c) == Some(s));
        } else {
            assert(point_string(unicode, hi) == Some(s));
        }
    }
}

pub proof fn lemma_range_member(unicode: bool, ranges: Seq<(u32, u32)>, n: int, s: Seq<u8>)
    requires
        0 <= n <= ranges.len(),
        range_strings(unicode, ranges, n).contains(s),
    ensures
        exists|c: int| #[trigger] in_ranges(ranges, c) && point_string(unicode, c) == Some(s),
    decreases n,
{
    if n > 0 {
        let head = range_strings(unicode, ranges, n - 1);
        let (lo, hi) = ranges[n - 1];
        let own = span_strings(unicode, lo as int, hi as int);
        let all = head + own;
        let k = choose|k: int| 0 <= k < all.len() && all[k] == s;
        if k < head.len() {
            assert(head[k] == s);
            lemma_range_member(unicode, ranges, n - 1, s);
        } else {
            assert(own[k - head.len()] == s);
            lemma_span_member(unicode, lo as int, hi as int, s);
            let c = choose|c: int| lo <= c <= hi && #[trigger] point_string(unicode, c) == Some(s);
            assert(ranges[n - 1].0 <= c <= ranges[n - 1].1);
            assert(in_ranges(ranges, c));
        }
    }
}

/// A string that a class matches is among the strings of its ranges.
proof fn lemma_class_listed(class: CharClass, s: Seq<u8>)
    requires
        class.wf(),
        class_matches(class, s),
    ensures
        ({
            let ranges = class_ranges(class);
            &&& range_total(ranges, ranges.len() as int) > 0
            &&& range_strings(class is Unicode, ranges, ranges.len() as int).contains(s)
        }),
{
    let ranges = class_ranges(class);
    let n = ranges.len() as int;
    let c = lemma_class_point(class, s);
    lemma_ranges_ordered(class);
    let i = choose|i: int| 0 <= i < ranges.len() && (#[trigger] ranges[i]).0 <= c <= ranges[i].1;
    lemma_range_total_positive(ranges, n, i);
    lemma_range_strings(class is Unicode, ranges, n, i, c);
}

/// A class of a few members is known exactly: its summary lists the strings that
/// the class matches, and no other.
pub proof fn law_small_class_is_known_exactly(class: CharClass, s: Seq<u8>)
    requires
        class.wf(),
        range_total(class_ranges(class), class_ranges(class).len() as int) <= MAX_CLASS,
        exists|m: Seq<u8>| class_matches(class, m),
    ensures
        class_info(class).exact matches Some(exact) && (exact.contains(s) <==> class_matches(
            class,
            s,
        )),
{
    let unicode = class is Unicode;
    let ranges = class_ranges(class);
    let n = ranges.len() as int;
    let m = choose|m: Seq<u8>| class_matches(class, m);
    lemma_class_info(class, m);
    let all = range_strings(unicode, ranges, n);
    lemma_class_listed(class, m);
    assert(all.contains(m));
    assert(class_info(class).exact == Some(cleaned(Order::Prefix, all)));
    lemma_cleaned_contains(Order::Prefix, all, s);
    if class_matches(class, s) {
        lemma_class_info(class, s);
    }
    if all.contains(s) {
        lemma_range_member(unicode, ranges, n, s);
        let c = choose|c: int| #[trigger] in_ranges(ranges, c) && point_string(unicode, c) == Some(
            s,
        );
        match class {
            CharClass::Unicode(own) => {
                assert(in_ranges(own@, c));
            },
            CharClass::Bytes(own) => {
                let i = choose|i: int|
                    0 <= i < ranges.len() && (#[trigger] ranges[i]).0 <= c <= ranges[i].1;
                assert(own@[i].0 <= c as u8 <= own@[i].1);
                assert(in_byte_ranges(own@, c as u8));
                assert(s[0] == c as u8);
            },
        }
    }
}

} // verus!
