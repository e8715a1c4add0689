//! First- and last-byte boundary sets for wide character classes.

use vstd::prelude::*;

use crate::query::gram::Gram;
use crate::query::hir::in_ranges;
use crate::query::order::{cleaned, Order};
use crate::query::strings::StringSet;
use crate::query::utf8::utf8;

verus! {

/// Distinct first- or last-bytes a wide class may keep before that side is
/// dropped to `{""}` (boundary unknown).
///
/// This keeps full boundary sets for mixed source-code alphabets (ASCII
/// letters plus one non-ASCII script) while still collapsing truly arbitrary
/// byte classes such as `.` to unknown. The resulting OR remains a small
/// fraction of the plan gram budget.
pub const MAX_BOUNDARY_BYTES: usize = 128;

/// Greatest code point.
pub const MAX_CODE_POINT: u32 = 0x10FFFF;

/// Some code point of the ranges has this first byte.
pub open spec fn is_first_byte(ranges: Seq<(u32, u32)>, b: u8) -> bool {
    exists|cp: int|
        0 <= cp <= MAX_CODE_POINT && #[trigger] in_ranges(ranges, cp) && utf8(cp)[0] == b
}

/// Some code point of the ranges has this last byte.
pub open spec fn is_last_byte(ranges: Seq<(u32, u32)>, b: u8) -> bool {
    exists|cp: int|
        0 <= cp <= MAX_CODE_POINT && #[trigger] in_ranges(ranges, cp) && utf8(cp).last() == b
}

/// The marked bytes below `n` as one-byte strings.
pub open spec fn marked_strings(marks: Seq<bool>, n: int) -> Seq<Seq<u8>>
    decreases n,
{
    if n <= 0 {
        Seq::empty()
    } else if marks[n - 1] {
        marked_strings(marks, n - 1).push(seq![(n - 1) as u8])
    } else {
        marked_strings(marks, n - 1)
    }
}

/// The marked bytes as one-byte strings, or only the empty string when none
/// or too many are marked.
pub open spec fn boundary_strings(marks: Seq<bool>) -> Seq<Seq<u8>> {
    let all = marked_strings(marks, 256);
    if all.len() == 0 || all.len() > MAX_BOUNDARY_BYTES {
        seq![Seq::empty()]
    } else {
        cleaned(Order::Prefix, all)
    }
}

/// The bytes a predicate accepts.
pub open spec fn marks_of(accepts: spec_fn(u8) -> bool) -> Seq<bool> {
    Seq::new(256, |b: int| accepts(b as u8))
}

/// First bytes over the encodings of a Unicode class.
pub open spec fn first_boundary_strings(ranges: Seq<(u32, u32)>) -> Seq<Seq<u8>> {
    boundary_strings(marks_of(|b: u8| is_first_byte(ranges, b)))
}

/// Last bytes over the encodings of a Unicode class.
pub open spec fn last_boundary_strings(ranges: Seq<(u32, u32)>) -> Seq<Seq<u8>> {
    boundary_strings(marks_of(|b: u8| is_last_byte(ranges, b)))
}

/// `n`, or 255 past it.
pub open spec fn byte_end(n: u32) -> u32 {
    if n > 0xFF {
        0xFF
    } else {
        n
    }
}

/// The ranges with both ends brought down to a byte.
pub open spec fn byte_ends(ranges: Seq<(u32, u32)>) -> Seq<(u32, u32)> {
    Seq::new(ranges.len(), |i: int| (byte_end(ranges[i].0), byte_end(ranges[i].1)))
}

/// The bytes of a byte class.
pub open spec fn byte_boundary_strings(ranges: Seq<(u32, u32)>) -> Seq<Seq<u8>> {
    boundary_strings(marks_of(|b: u8| in_ranges(byte_ends(ranges), b as int)))
}

/// A dense set of bytes, collapsed to a boundary [`StringSet`] once complete.
pub struct ByteSet(Vec<bool>);

impl View for ByteSet {
    type V = Seq<bool>;

    closed spec fn view(&self) -> Seq<bool> {
        self.0@
    }
}

impl ByteSet {
    /// One flag for every byte.
    pub open spec fn wf(self) -> bool {
        self@.len() == 256
    }

    /// The empty set.
    pub fn new() -> (set: ByteSet)
        ensures
            set.wf(),
            set@ == Seq::new(256, |b: int| false),
    {
        let mut flags: Vec<bool> = Vec::new();
        let mut b: usize = 0;
        while b < 256
            invariant
                b <= 256,
                flags@.len() == b,
                forall|k: int| 0 <= k < b ==> !flags@[k],
            decreases 256 - b,
        {
            flags.push(false);
            b = b + 1;
        }
        assert(flags@ =~= Seq::new(256, |b: int| false));
        ByteSet(flags)
    }

    /// Add one byte.
    pub fn mark(&mut self, b: u8)
        requires
            old(self).wf(),
        ensures
            final(self).wf(),
            final(self)@ == old(self)@.update(b as int, true),
    {
        self.0.set(b as usize, true);
    }

    /// Add every byte from `lo` to `hi`.
    pub fn mark_range(&mut self, lo: u8, hi: u8)
        requires
            old(self).wf(),
        ensures
            final(self).wf(),
            forall|k: int|
                0 <= k < 256 ==> (#[trigger] final(self)@[k]) == (old(self)@[k] || lo <= k <= hi),
    {
        let mut b: usize = lo as usize;
        while b <= hi as usize
            invariant
                lo <= b,
                b <= 256,
                self.wf(),
                forall|k: int|
                    0 <= k < 256 ==> (#[trigger] self@[k]) == (old(self)@[k] || (lo <= k < b && k
                        <= hi)),
            decreases 256 - b,
        {
            self.mark(b as u8);
            b = b + 1;
        }
    }

    /// The marked bytes as one-byte prefix/suffix members, or `{""}` (boundary
    /// unknown) when none were marked or more than [`MAX_BOUNDARY_BYTES`]
    /// were.
    pub fn into_boundary(self) -> (set: StringSet)
        requires
            self.wf(),
        ensures
            set.wf(),
            set@ == boundary_strings(self@),
    {
        let mut set = StringSet::new();
        let mut b: usize = 0;
        while b < 256
            invariant
                b <= 256,
                self.wf(),
                set.wf(),
                set@ == marked_strings(self@, b as int),
            decreases 256 - b,
        {
            if self.0[b] {
                let mut one: Vec<u8> = Vec::new();
                one.push(b as u8);
                assert(one@ =~= seq![b as u8]);
                set.push(Gram::from_vec(one));
            }
            b = b + 1;
        }
        if set.is_empty() || set.len() > MAX_BOUNDARY_BYTES {
            return StringSet::of(Gram::empty());
        }
        set.clean(Order::Prefix);
        set
    }
}

/// First- and last-byte sets of a byte class's members. A byte is its own
/// one-byte "encoding", so both sets are the class's bytes themselves.
pub fn byte_boundary_bytes(ranges: &Vec<(u32, u32)>) -> (sets: (StringSet, StringSet))
    ensures
        sets.0.wf(),
        sets.1.wf(),
        sets.0@ == byte_boundary_strings(ranges@),
        sets.1@ == byte_boundary_strings(ranges@),
{
    let ghost ends = byte_ends(ranges@);
    let mut bytes = ByteSet::new();
    let mut i: usize = 0;
    while i < ranges.len()
        invariant
            i <= ranges@.len(),
            ends == byte_ends(ranges@),
            bytes.wf(),
            forall|k: int|
                0 <= k < 256 ==> (#[trigger] bytes@[k]) == in_ranges(ends.take(i as int), k),
        decreases ranges@.len() - i,
    {
        let (lo, hi) = ranges[i];
        bytes.mark_range(
            if lo > 0xFF {
                0xFF
            } else {
                lo as u8
            },
            if hi > 0xFF {
                0xFF
            } else {
                hi as u8
            },
        );
        assert forall|k: int| 0 <= k < 256 implies (#[trigger] bytes@[k]) == in_ranges(
            ends.take(i + 1),
            k,
        ) by {
            lemma_in_ranges_step(ends, i as int, k);
        }
        i = i + 1;
    }
    assert(ends.take(i as int) =~= ends);
    assert(bytes@ =~= marks_of(|b: u8| in_ranges(ends, b as int)));
    let set = bytes.into_boundary();
    (set.duplicate(), set)
}

/// One more range adds exactly its own code points.
pub proof fn lemma_in_ranges_step(ranges: Seq<(u32, u32)>, i: int, cp: int)
    requires
        0 <= i < ranges.len(),
    ensures
        in_ranges(ranges.take(i + 1), cp) <==> in_ranges(ranges.take(i), cp) || ranges[i].0 <= cp
            <= ranges[i].1,
{
    let (a, b) = (ranges.take(i), ranges.take(i + 1));
    if in_ranges(b, cp) {
        let k = choose|k: int| 0 <= k < b.len() && (#[trigger] b[k]).0 <= cp <= b[k].1;
        if k < i {
            assert(a[k].0 <= cp <= a[k].1);
        }
    }
    if in_ranges(a, cp) {
        let k = choose|k: int| 0 <= k < a.len() && (#[trigger] a[k]).0 <= cp <= a[k].1;
        assert(b[k].0 <= cp <= b[k].1);
    }
    if ranges[i].0 <= cp <= ranges[i].1 {
        assert(b[i].0 <= cp <= b[i].1);
    }
}

/// First- and last-byte sets over the UTF-8 encodings of a Unicode class's
/// scalars, derived from the scalar ranges without enumerating each scalar.
///
/// First bytes rise monotonically with the scalar inside one UTF-8 length
/// class, so a sub-range contributes the contiguous span
/// `[first(lo), first(hi)]`; a multi-byte last byte is a continuation byte,
/// which cycles through all of `0x80..=0xBF` once a sub-range spans 64 scalars
/// and otherwise walks a short interval.
pub fn utf8_boundary_bytes(ranges: &Vec<(u32, u32)>) -> (sets: (StringSet, StringSet))
    ensures
        sets.0.wf(),
        sets.1.wf(),
        sets.0@ == first_boundary_strings(ranges@),
        sets.1@ == last_boundary_strings(ranges@),
{
    let mut first = ByteSet::new();
    let mut last = ByteSet::new();
    let mut i: usize = 0;
    while i < ranges.len()
        invariant
            i <= ranges@.len(),
            first.wf(),
            last.wf(),
            forall|k: int|
                0 <= k < 256 ==> (#[trigger] first@[k]) == is_first_byte(
                    ranges@.take(i as int),
                    k as u8,
                ),
            forall|k: int|
                0 <= k < 256 ==> (#[trigger] last@[k]) == is_last_byte(
                    ranges@.take(i as int),
                    k as u8,
                ),
        decreases ranges@.len() - i,
    {
        let (lo, hi) = ranges[i];
        let ghost (f, l) = (first@, last@);
        mark_utf8_bytes(lo, hi, &mut first, &mut last);
        assert forall|k: int| 0 <= k < 256 implies (#[trigger] first@[k]) == is_first_byte(
            ranges@.take(i + 1),
            k as u8,
        ) by {
            lemma_first_step(ranges@, i as int, k as u8);
            assert(first@[k] == (f[k] || span_has_first(lo as int, hi as int, k as u8)));
        }
        assert forall|k: int| 0 <= k < 256 implies (#[trigger] last@[k]) == is_last_byte(
            ranges@.take(i + 1),
            k as u8,
        ) by {
            lemma_last_step(ranges@, i as int, k as u8);
            assert(last@[k] == (l[k] || span_has_last(lo as int, hi as int, k as u8)));
        }
        i = i + 1;
    }
    assert(ranges@.take(i as int) =~= ranges@);
    assert(first@ =~= marks_of(|b: u8| is_first_byte(ranges@, b)));
    assert(last@ =~= marks_of(|b: u8| is_last_byte(ranges@, b)));
    (first.into_boundary(), last.into_boundary())
}

/// Some code point from `lo` to `hi` has this first byte.
pub open spec fn span_has_first(lo: int, hi: int, b: u8) -> bool {
    exists|cp: int| lo <= cp <= hi && 0 <= cp <= MAX_CODE_POINT && (#[trigger] utf8(cp))[0] == b
}

/// Some code point from `lo` to `hi` has this last byte.
pub open spec fn span_has_last(lo: int, hi: int, b: u8) -> bool {
    exists|cp: int|
        lo <= cp <= hi && 0 <= cp <= MAX_CODE_POINT && (#[trigger] utf8(cp)).last() == b
}

proof fn lemma_first_step(ranges: Seq<(u32, u32)>, i: int, b: u8)
    requires
        0 <= i < ranges.len(),
    ensures
        is_first_byte(ranges.take(i + 1), b) <==> is_first_byte(ranges.take(i), b)
            || span_has_first(ranges[i].0 as int, ranges[i].1 as int, b),
{
    if is_first_byte(ranges.take(i + 1), b) {
        let cp = choose|cp: int|
            0 <= cp <= MAX_CODE_POINT && #[trigger] in_ranges(ranges.take(i + 1), cp) && utf8(cp)[0]
                == b;
        lemma_in_ranges_step(ranges, i, cp);
        if !in_ranges(ranges.take(i), cp) {
            assert(utf8(cp)[0] == b);
        }
    }
    if is_first_byte(ranges.take(i), b) {
        let cp = choose|cp: int|
            0 <= cp <= MAX_CODE_POINT && #[trigger] in_ranges(ranges.take(i), cp) && utf8(cp)[0]
                == b;
        lemma_in_ranges_step(ranges, i, cp);
        assert(in_ranges(ranges.take(i + 1), cp));
    }
    if span_has_first(ranges[i].0 as int, ranges[i].1 as int, b) {
        let cp = choose|cp: int|
            ranges[i].0 <= cp <= ranges[i].1 && 0 <= cp <= MAX_CODE_POINT && (#[trigger] utf8(
                cp,
            ))[0] == b;
        lemma_in_ranges_step(ranges, i, cp);
        assert(in_ranges(ranges.take(i + 1), cp));
    }
}

proof fn lemma_last_step(ranges: Seq<(u32, u32)>, i: int, b: u8)
    requires
        0 <= i < ranges.len(),
    ensures
        is_last_byte(ranges.take(i + 1), b) <==> is_last_byte(ranges.take(i), b) || span_has_last(
            ranges[i].0 as int,
            ranges[i].1 as int,
            b,
        ),
{
    if is_last_byte(ranges.take(i + 1), b) {
        let cp = choose|cp: int|
            0 <= cp <= MAX_CODE_POINT && #[trigger] in_ranges(ranges.take(i + 1), cp) && utf8(
                cp,
            ).last() == b;
        lemma_in_ranges_step(ranges, i, cp);
        if !in_ranges(ranges.take(i), cp) {
            assert(utf8(cp).last() == b);
        }
    }
    if is_last_byte(ranges.take(i), b) {
        let cp = choose|cp: int|
            0 <= cp <= MAX_CODE_POINT && #[trigger] in_ranges(ranges.take(i), cp) && utf8(
                cp,
            ).last() == b;
        lemma_in_ranges_step(ranges, i, cp);
        assert(in_ranges(ranges.take(i + 1), cp));
    }
    if span_has_last(ranges[i].0 as int, ranges[i].1 as int, b) {
        let cp = choose|cp: int|
            ranges[i].0 <= cp <= ranges[i].1 && 0 <= cp <= MAX_CODE_POINT && (#[trigger] utf8(
                cp,
            )).last() == b;
        lemma_in_ranges_step(ranges, i, cp);
        assert(in_ranges(ranges.take(i + 1), cp));
    }
}

/// Mark the first and last UTF-8 bytes of every scalar in `[lo, hi]`, one
/// UTF-8 length class at a time.
fn mark_utf8_bytes(lo: u32, hi: u32, first: &mut ByteSet, last: &mut ByteSet)
    requires
        old(first).wf(),
        old(last).wf(),
    ensures
        final(first).wf(),
        final(last).wf(),
        forall|k: int|
            0 <= k < 256 ==> (#[trigger] final(first)@[k]) == (old(first)@[k] || span_has_first(
                lo as int,
                hi as int,
                k as u8,
            )),
        forall|k: int|
            0 <= k < 256 ==> (#[trigger] final(last)@[k]) == (old(last)@[k] || span_has_last(
                lo as int,
                hi as int,
                k as u8,
            )),
{
    mark_length_class(lo, hi, 0, 0x7F, first, last);
    mark_length_class(lo, hi, 0x80, 0x7FF, first, last);
    mark_length_class(lo, hi, 0x800, 0xFFFF, first, last);
    mark_length_class(lo, hi, 0x10000, 0x10FFFF, first, last);
    assert forall|k: int| 0 <= k < 256 implies (#[trigger] first@[k]) == (old(first)@[k]
        || span_has_first(lo as int, hi as int, k as u8)) by {
        if span_has_first(lo as int, hi as int, k as u8) {
            let cp = choose|cp: int|
                lo <= cp <= hi && 0 <= cp <= MAX_CODE_POINT && (#[trigger] utf8(cp))[0] == k as u8;
            assert(utf8(cp)[0] == k as u8);
        }
    }
    assert forall|k: int| 0 <= k < 256 implies (#[trigger] last@[k]) == (old(last)@[k]
        || span_has_last(lo as int, hi as int, k as u8)) by {
        if span_has_last(lo as int, hi as int, k as u8) {
            let cp = choose|cp: int|
                lo <= cp <= hi && 0 <= cp <= MAX_CODE_POINT && (#[trigger] utf8(cp)).last()
                    == k as u8;
            assert(utf8(cp).last() == k as u8);
        }
    }
}

/// The greater of two numbers.
spec fn greatest(a: int, b: int) -> int {
    if a > b {
        a
    } else {
        b
    }
}

/// The lesser of two numbers.
spec fn least(a: int, b: int) -> int {
    if a < b {
        a
    } else {
        b
    }
}

/// Mark the bytes of the scalars in `[lo, hi]` that fall in one length class.
fn mark_length_class(
    lo: u32,
    hi: u32,
    class_lo: u32,
    class_hi: u32,
    first: &mut ByteSet,
    last: &mut ByteSet,
)
    requires
        old(first).wf(),
        old(last).wf(),
        (class_lo, class_hi) == (0u32, 0x7Fu32) || (class_lo, class_hi) == (0x80u32, 0x7FFu32) || (
        class_lo,
        class_hi,
    ) == (0x800u32, 0xFFFFu32) || (class_lo, class_hi) == (0x10000u32, 0x10FFFFu32),
    ensures
        final(first).wf(),
        final(last).wf(),
        forall|k: int|
            0 <= k < 256 ==> (#[trigger] final(first)@[k]) == (old(first)@[k] || span_has_first(
                greatest(lo as int, class_lo as int),
                least(hi as int, class_hi as int),
                k as u8,
            )),
        forall|k: int|
            0 <= k < 256 ==> (#[trigger] final(last)@[k]) == (old(last)@[k] || span_has_last(
                greatest(lo as int, class_lo as int),
                least(hi as int, class_hi as int),
                k as u8,
            )),
{
    let a: u32 = if lo > class_lo {
        lo
    } else {
        class_lo
    };
    let b: u32 = if hi < class_hi {
        hi
    } else {
        class_hi
    };
    if a > b {
        return;
    }
    let first_a: u8 = utf8_first_byte(a);
    let first_b: u8 = utf8_first_byte(b);
    // first bytes rise with the scalar inside a length class
    first.mark_range(first_a, first_b);
    proof {
        assert forall|k: int| 0 <= k < 256 implies (#[trigger] first@[k]) == (old(first)@[k]
            || span_has_first(a as int, b as int, k as u8)) by {
            lemma_first_span(a as int, b as int, class_lo as int, class_hi as int, k as u8);
        }
    }
    if class_lo == 0 {
        // a one-byte scalar's last byte is the scalar itself
        last.mark_range(utf8_last_byte(a), utf8_last_byte(b));
        assert forall|k: int| 0 <= k < 256 implies (#[trigger] last@[k]) == (old(last)@[k]
            || span_has_last(a as int, b as int, k as u8)) by {
            lemma_last_ascii(a as int, b as int, k);
        }
    } else if b - a >= 63 {
        // a span of 64 scalars hits every continuation byte
        last.mark_range(0x80, 0xBF);
        assert forall|k: int| 0 <= k < 256 implies (#[trigger] last@[k]) == (old(last)@[k]
            || span_has_last(a as int, b as int, k as u8)) by {
            lemma_last_cycle(a as int, b as int, k);
        }
    } else {
        walk_last_bytes(a, b, last);
    }
}

proof fn lemma_last_ascii(a: int, b: int, k: int)
    requires
        0 <= a <= b < 0x80,
        0 <= k < 256,
    ensures
        span_has_last(a, b, k as u8) <==> a <= k <= b,
{
    if a <= k <= b {
        assert(utf8(k).last() == k as u8);
    }
    if span_has_last(a, b, k as u8) {
        let cp = choose|cp: int|
            a <= cp <= b && 0 <= cp <= MAX_CODE_POINT && (#[trigger] utf8(cp)).last() == k as u8;
        assert(utf8(cp)[0] == cp);
    }
}

proof fn lemma_last_cycle(a: int, b: int, k: int)
    requires
        0x80 <= a,
        a + 63 <= b <= MAX_CODE_POINT,
        0 <= k < 256,
    ensures
        span_has_last(a, b, k as u8) <==> 0x80 <= k <= 0xBF,
{
    if 0x80 <= k <= 0xBF {
        let r = k - 0x80;
        let at = a % 64;
        let cp = if r >= at {
            a + (r - at)
        } else {
            a + (64 + r - at)
        };
        assert(cp % 64 == r);
        assert(utf8(cp).last() == k as u8);
    }
    if span_has_last(a, b, k as u8) {
        let cp = choose|cp: int|
            a <= cp <= b && 0 <= cp <= MAX_CODE_POINT && (#[trigger] utf8(cp)).last() == k as u8;
        assert(utf8(cp).last() == (0x80 + cp % 64) as u8);
    }
}

/// Mark the last byte of each scalar of a short multi-byte span.
fn walk_last_bytes(a: u32, b: u32, last: &mut ByteSet)
    requires
        old(last).wf(),
        0x80 <= a <= b <= MAX_CODE_POINT,
    ensures
        final(last).wf(),
        forall|k: int|
            0 <= k < 256 ==> (#[trigger] final(last)@[k]) == (old(last)@[k] || span_has_last(
                a as int,
                b as int,
                k as u8,
            )),
{
    let mut cp: u32 = a;
    while cp <= b
        invariant
            0x80 <= a <= cp <= b + 1,
            b <= MAX_CODE_POINT,
            last.wf(),
            forall|k: int|
                0 <= k < 256 ==> (#[trigger] last@[k]) == (old(last)@[k] || span_has_last(
                    a as int,
                    cp - 1,
                    k as u8,
                )),
        decreases b + 1 - cp,
    {
        let byte: u8 = utf8_last_byte(cp);
        let ghost prior = last@;
        last.mark(byte);
        assert forall|k: int| 0 <= k < 256 implies (#[trigger] last@[k]) == (old(last)@[k]
            || span_has_last(a as int, cp as int, k as u8)) by {
            assert(prior[k] == (old(last)@[k] || span_has_last(a as int, cp - 1, k as u8)));
            lemma_last_more(a as int, cp as int, k as u8);
        }
        cp = cp + 1;
    }
}

proof fn lemma_last_more(a: int, cp: int, k: u8)
    requires
        0 <= a <= cp <= MAX_CODE_POINT,
    ensures
        span_has_last(a, cp, k) <==> span_has_last(a, cp - 1, k) || utf8(cp).last() == k,
{
    if span_has_last(a, cp, k) && utf8(cp).last() != k {
        let c = choose|c: int|
            a <= c <= cp && 0 <= c <= MAX_CODE_POINT && (#[trigger] utf8(c)).last() == k;
        assert(utf8(c).last() == k);
    }
    if span_has_last(a, cp - 1, k) {
        let c = choose|c: int|
            a <= c <= cp - 1 && 0 <= c <= MAX_CODE_POINT && (#[trigger] utf8(c)).last() == k;
        assert(utf8(c).last() == k);
    }
}

/// Inside a length class, the first bytes of a span are contiguous.
proof fn lemma_first_span(a: int, b: int, class_lo: int, class_hi: int, k: u8)
    requires
        class_lo <= a <= b <= class_hi,
        (class_lo, class_hi) == (0int, 0x7Fint) || (class_lo, class_hi) == (0x80int, 0x7FFint) || (
        class_lo,
        class_hi,
    ) == (0x800int, 0xFFFFint) || (class_lo, class_hi) == (0x10000int, 0x10FFFFint),
    ensures
        (utf8(a)[0] <= k <= utf8(b)[0]) == span_has_first(a, b, k),
{
    let unit: int = if class_lo == 0 {
        1
    } else if class_lo == 0x80 {
        64
    } else if class_lo == 0x800 {
        4096
    } else {
        262144
    };
    let lead: int = if class_lo == 0 {
        0
    } else if class_lo == 0x80 {
        0xC0
    } else if class_lo == 0x800 {
        0xE0
    } else {
        0xF0
    };
    assert forall|cp: int| class_lo <= cp <= class_hi implies (#[trigger] utf8(cp))[0] == lead + cp
        / unit by {}
    if utf8(a)[0] <= k <= utf8(b)[0] {
        let cp = if k == utf8(a)[0] {
            a
        } else {
            (k - lead) * unit
        };
        assert(a <= cp <= b && cp / unit == k - lead);
        assert(utf8(cp)[0] == k);
    }
    if span_has_first(a, b, k) {
        let cp = choose|cp: int|
            a <= cp <= b && 0 <= cp <= MAX_CODE_POINT && (#[trigger] utf8(cp))[0] == k;
        assert(utf8(cp)[0] == lead + cp / unit);
        assert(utf8(a)[0] == lead + a / unit);
        assert(utf8(b)[0] == lead + b / unit);
        assert(a / unit <= cp / unit <= b / unit);
    }
}

/// The first byte of `cp`'s UTF-8 encoding, arithmetically (no scalar
/// validity check, so it is safe across the surrogate gap).
fn utf8_first_byte(cp: u32) -> (b: u8)
    requires
        cp <= MAX_CODE_POINT,
    ensures
        b == utf8(cp as int)[0],
{
    if cp < 0x80 {
        cp as u8
    } else if cp < 0x800 {
        (0xC0 + cp / 64) as u8
    } else if cp < 0x10000 {
        (0xE0 + cp / 4096) as u8
    } else {
        (0xF0 + cp / 262144) as u8
    }
}

/// The last byte of `cp`'s UTF-8 encoding: the scalar itself when ASCII, else
/// the trailing continuation byte.
fn utf8_last_byte(cp: u32) -> (b: u8)
    requires
        cp <= MAX_CODE_POINT,
    ensures
        b == utf8(cp as int).last(),
{
    if cp < 0x80 {
        cp as u8
    } else {
        (0x80 + cp % 64) as u8
    }
}

} // verus!
