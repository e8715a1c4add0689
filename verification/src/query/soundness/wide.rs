//! What the summary of a wide class tells: the bytes that its members start and
//! end with, and of a class of mixed width the ASCII members exactly.

use vstd::prelude::*;

use crate::query::analyze::boundary::{
    boundary_strings, is_first_byte, is_last_byte, marked_strings, marks_of, MAX_BOUNDARY_BYTES,
    MAX_CODE_POINT,
};
use crate::query::analyze::classes::{
    ascii_part, class_info, class_ranges, enumerated, mixed_split, point_string, range_strings,
    range_total, strings_info, wide_part, MAX_CLASS,
};
use crate::query::hir::{class_matches, in_ranges, CharClass};
use crate::query::order::Order;
use crate::query::soundness::lemma_cleaned_contains;
use crate::query::soundness::members::{
    lemma_parts, lemma_range_member, lemma_range_strings, lemma_range_total_positive,
    lemma_ranges_ordered,
};
use crate::query::utf8::{is_scalar, lemma_utf8_bytes, utf8};

verus! {

/// The ASCII part holds nothing but what is ASCII in the ranges.
proof fn lemma_ascii_part(ranges: Seq<(u32, u32)>, n: int, c: int)
    requires
        0 <= n <= ranges.len(),
        in_ranges(ascii_part(ranges, n), c),
    ensures
        in_ranges(ranges, c),
        c < 0x80,
    decreases n,
{
    if n > 0 {
        let head = ascii_part(ranges, n - 1);
        let all = ascii_part(ranges, n);
        let k = choose|k: int| 0 <= k < all.len() && (#[trigger] all[k]).0 <= c <= all[k].1;
        if k < head.len() {
            assert(all[k] == head[k]);
            assert(head[k].0 <= c <= head[k].1);
            lemma_ascii_part(ranges, n - 1, c);
        } else {
            assert(ranges[n - 1].0 <= c <= ranges[n - 1].1);
        }
    }
}

/// A wide class of mixed width comes apart in two, and of the first part the
/// strings are known exactly: they are the members of the class that are ASCII.
/// There must be members of both kinds, and not too many that are ASCII.
pub proof fn law_mixed_class_keeps_its_ascii_members(
    class: CharClass,
    narrow: int,
    broad: int,
    s: Seq<u8>,
)
    requires
        class is Unicode,
        class.wf(),
        range_total(class_ranges(class), class_ranges(class).len() as int) > MAX_CLASS,
        in_ranges(class_ranges(class), narrow),
        0 <= narrow < 0x80,
        in_ranges(class_ranges(class), broad),
        broad >= 0x80,
        ({
            let ascii = ascii_part(class_ranges(class), class_ranges(class).len() as int);
            range_total(ascii, ascii.len() as int) <= MAX_CLASS
        }),
    ensures
        mixed_split(class) matches Some((a, b)) && a.exact matches Some(e) && (e.contains(s)
            <==> class_matches(class, s) && s.len() == 1),
{
    let ranges = class_ranges(class);
    let n = ranges.len() as int;
    let ascii = ascii_part(ranges, n);
    let wide = wide_part(ranges, n);
    lemma_ranges_ordered(class);
    let i = choose|i: int| 0 <= i < n && (#[trigger] ranges[i]).0 <= narrow <= ranges[i].1;
    lemma_parts(ranges, n, i, narrow);
    let j = choose|j: int| 0 <= j < n && (#[trigger] ranges[j]).0 <= broad <= ranges[j].1;
    lemma_parts(ranges, n, j, broad);
    let k = choose|k: int|
        0 <= k < ascii.len() && (#[trigger] ascii[k]).0 <= narrow <= ascii[k].1;
    lemma_range_total_positive(ascii, ascii.len() as int, k);
    lemma_range_strings(true, ascii, ascii.len() as int, k, narrow);
    let all = range_strings(true, ascii, ascii.len() as int);
    assert(wide.len() > 0);
    assert(mixed_split(class) == Some(
        (strings_info(enumerated(true, ascii)), strings_info(enumerated(true, wide))),
    ));
    lemma_cleaned_contains(Order::Prefix, all, s);
    if all.contains(s) {
        lemma_range_member(true, ascii, ascii.len() as int, s);
        let c = choose|c: int| #[trigger] in_ranges(ascii, c) && point_string(true, c) == Some(s);
        lemma_ascii_part(ranges, n, c);
        lemma_utf8_bytes(c);
        assert(is_scalar(c) && in_ranges(ranges, c) && s == utf8(c));
    }
    if class_matches(class, s) && s.len() == 1 {
        let c = choose|c: int| is_scalar(c) && #[trigger] in_ranges(ranges, c) && s == utf8(c);
        lemma_utf8_bytes(c);
        let m = choose|m: int| 0 <= m < n && (#[trigger] ranges[m]).0 <= c <= ranges[m].1;
        lemma_parts(ranges, n, m, c);
        let p = choose|p: int| 0 <= p < ascii.len() && (#[trigger] ascii[p]).0 <= c <= ascii[p].1;
        lemma_range_strings(true, ascii, ascii.len() as int, p, c);
    }
}

/// A code point of the class has this byte first.
pub open spec fn starts_member(class: CharClass, b: u8) -> bool {
    exists|c: int|
        0 <= c <= MAX_CODE_POINT && #[trigger] in_ranges(class_ranges(class), c) && utf8(c)[0] == b
}

/// A code point of the class has this byte last.
pub open spec fn ends_member(class: CharClass, b: u8) -> bool {
    exists|c: int|
        0 <= c <= MAX_CODE_POINT && #[trigger] in_ranges(class_ranges(class), c) && utf8(c).last()
            == b
}

/// The marked bytes, and no others, are listed.
proof fn lemma_marked_listed(marks: Seq<bool>, n: int, b: u8)
    requires
        0 <= n <= 256,
    ensures
        marked_strings(marks, n).contains(seq![b]) <==> b < n && marks[b as int],
    decreases n,
{
    if n > 0 {
        let head = marked_strings(marks, n - 1);
        let all = marked_strings(marks, n);
        lemma_marked_listed(marks, n - 1, b);
        let last = seq![(n - 1) as u8];
        assert(last[0] == n - 1 && seq![b][0] == b);
        if all.contains(seq![b]) {
            let k = choose|k: int| 0 <= k < all.len() && all[k] == seq![b];
            if k < head.len() {
                assert(head[k] == seq![b]);
                assert(head.contains(seq![b]));
            } else {
                assert(last == seq![b]);
            }
        }
        if head.contains(seq![b]) {
            let k = choose|k: int| 0 <= k < head.len() && head[k] == seq![b];
            assert(all[k] == seq![b]);
        }
        if b == n - 1 && marks[b as int] {
            assert(last =~= seq![b]);
            assert(all[head.len() as int] == seq![b]);
        }
    }
}

/// There are no more marked bytes than there are bytes in a set that has them.
proof fn lemma_marked_few(marks: Seq<bool>, n: int, few: Set<u8>)
    requires
        0 <= n <= 256,
        few.finite(),
        forall|b: u8| b < n && #[trigger] marks[b as int] ==> few.contains(b),
    ensures
        marked_strings(marks, n).len() <= few.len(),
    decreases n,
{
    if n > 0 {
        let last = (n - 1) as u8;
        if marks[n - 1] {
            assert(marks[last as int]);
            lemma_marked_few(marks, n - 1, few.remove(last));
        } else {
            lemma_marked_few(marks, n - 1, few);
        }
    }
}

/// The boundary strings are the marked bytes, where there are some, but few.
proof fn lemma_boundary_tells(marks: Seq<bool>, few: Set<u8>, one: u8, b: u8)
    requires
        marks.len() == 256,
        few.finite(),
        few.len() <= MAX_BOUNDARY_BYTES,
        forall|c: u8| #[trigger] marks[c as int] ==> few.contains(c),
        marks[one as int],
    ensures
        boundary_strings(marks).contains(seq![b]) <==> marks[b as int],
        !boundary_strings(marks).contains(Seq::empty()),
{
    let all = marked_strings(marks, 256);
    lemma_marked_few(marks, 256, few);
    lemma_marked_listed(marks, 256, one);
    lemma_marked_listed(marks, 256, b);
    assert(all.len() > 0);
    lemma_cleaned_contains(Order::Prefix, all, seq![b]);
    lemma_cleaned_contains(Order::Prefix, all, Seq::empty());
    if all.contains(Seq::empty()) {
        lemma_marked_nonempty(marks, 256, Seq::empty());
    }
}

proof fn lemma_marked_nonempty(marks: Seq<bool>, n: int, s: Seq<u8>)
    requires
        marked_strings(marks, n).contains(s),
    ensures
        s.len() == 1,
    decreases n,
{
    if n > 0 {
        let head = marked_strings(marks, n - 1);
        let all = marked_strings(marks, n);
        let k = choose|k: int| 0 <= k < all.len() && all[k] == s;
        if k < head.len() {
            assert(head[k] == s);
            lemma_marked_nonempty(marks, n - 1, s);
        }
    }
}

/// The summary of a wide class tells the bytes that its members start with, and
/// those that they end with, where these are few: each of them, and no other.
pub proof fn law_wide_class_tells_its_edges(class: CharClass, c: int, few: Set<u8>, b: u8)
    requires
        class is Unicode,
        range_total(class_ranges(class), class_ranges(class).len() as int) > MAX_CLASS,
        in_ranges(class_ranges(class), c),
        0 <= c <= MAX_CODE_POINT,
        few.finite(),
        few.len() <= MAX_BOUNDARY_BYTES,
    ensures
        class_info(class).exact is None,
        (forall|f: u8| #[trigger] starts_member(class, f) ==> few.contains(f)) ==> {
            &&& class_info(class).prefix.contains(seq![b]) <==> starts_member(class, b)
            &&& !class_info(class).prefix.contains(Seq::empty())
        },
        (forall|f: u8| #[trigger] ends_member(class, f) ==> few.contains(f)) ==> {
            &&& class_info(class).suffix.contains(seq![b]) <==> ends_member(class, b)
            &&& !class_info(class).suffix.contains(Seq::empty())
        },
{
    let ranges = class_ranges(class);
    let first = marks_of(|f: u8| is_first_byte(ranges, f));
    let last = marks_of(|f: u8| is_last_byte(ranges, f));
    assert forall|f: u8| #[trigger] first[f as int] <==> starts_member(class, f) by {
        assert(first[f as int] == is_first_byte(ranges, f));
    }
    assert forall|f: u8| #[trigger] last[f as int] <==> ends_member(class, f) by {
        assert(last[f as int] == is_last_byte(ranges, f));
    }
    assert(starts_member(class, utf8(c)[0]));
    assert(ends_member(class, utf8(c).last()));
    if forall|f: u8| #[trigger] starts_member(class, f) ==> few.contains(f) {
        lemma_boundary_tells(first, few, utf8(c)[0], b);
    }
    if forall|f: u8| #[trigger] ends_member(class, f) ==> few.contains(f) {
        lemma_boundary_tells(last, few, utf8(c).last(), b);
    }
}

} // verus!
