//! Length, newline and byte-count facts of a pattern.

use vstd::prelude::*;

use crate::bytes::SaturatingByteCounts256;
use crate::num::{add_to_max_u64, clamp_u64, mul_to_max_u64};
use crate::query::hir::{in_byte_ranges, CharClass, Regex};
use crate::query::plan::ScanNeed;

verus! {

/// Length of the shortest match, by the shape of the pattern.
pub open spec fn shortest(h: Regex) -> nat
    decreases h, 1int, 0int,
{
    match h {
        Regex::Empty => 0,
        Regex::Look(_) => 0,
        Regex::Literal(bytes) => bytes@.len(),
        Regex::Class(_) => 1,
        Regex::Repetition(rep) => (rep.min * shortest(*rep.sub)) as nat,
        Regex::Capture(sub) => shortest(*sub),
        Regex::Concat(subs) => shortest_sum(h, subs@.len() as int),
        Regex::Alternation(subs) => shortest_branch(h, subs@.len() as int),
    }
}

/// The sum over the first `n` parts.
pub open spec fn shortest_sum(h: Regex, n: int) -> nat
    decreases h, 0int, n,
{
    match h {
        Regex::Concat(subs) => if n <= 0 || n > subs@.len() {
            0
        } else {
            shortest_sum(h, n - 1) + shortest(subs@[n - 1])
        },
        _ => 0,
    }
}

/// The least over the first `n` branches, 0 when there is none.
pub open spec fn shortest_branch(h: Regex, n: int) -> nat
    decreases h, 0int, n,
{
    match h {
        Regex::Alternation(subs) => if n <= 0 || n > subs@.len() {
            0
        } else if n == 1 || shortest(subs@[n - 1]) < shortest_branch(h, n - 1) {
            shortest(subs@[n - 1])
        } else {
            shortest_branch(h, n - 1)
        },
        _ => 0,
    }
}

/// The class has the line break.
pub open spec fn class_newline(class: CharClass) -> bool {
    match class {
        CharClass::Bytes(ranges) => in_byte_ranges(ranges@, 10),
        CharClass::Unicode(ranges) => crate::query::hir::in_ranges(ranges@, 10),
    }
}

/// A match may hold a line break.
pub open spec fn allows_newline(h: Regex) -> bool
    decreases h,
{
    match h {
        Regex::Empty => false,
        Regex::Look(_) => false,
        Regex::Literal(bytes) => bytes@.contains(10),
        Regex::Class(class) => class_newline(class),
        Regex::Repetition(rep) => rep.max != Some(0u32) && allows_newline(*rep.sub),
        Regex::Capture(sub) => allows_newline(*sub),
        Regex::Concat(subs) => exists|i: int| 0 <= i < subs@.len() && allows_newline(#[trigger] subs@[i]),
        Regex::Alternation(subs) => exists|i: int|
            0 <= i < subs@.len() && allows_newline(#[trigger] subs@[i]),
    }
}

/// `n`, or 255 past it.
pub open spec fn clamp_u8(n: int) -> int {
    if n > 255 {
        255
    } else {
        n
    }
}

/// How often a byte occurs.
pub open spec fn occurrences(bytes: Seq<u8>, b: u8) -> nat
    decreases bytes.len(),
{
    if bytes.len() == 0 {
        0
    } else {
        occurrences(bytes.drop_last(), b) + if bytes.last() == b {
            1nat
        } else {
            0
        }
    }
}

/// How often every match holds a byte at least, up to 255.
pub open spec fn least_count(h: Regex, b: u8) -> int
    decreases h, 1int, 0int,
{
    match h {
        Regex::Literal(bytes) => clamp_u8(occurrences(bytes@, b) as int),
        Regex::Repetition(rep) => clamp_u8(least_count(*rep.sub, b) * rep.min),
        Regex::Capture(sub) => least_count(*sub, b),
        Regex::Concat(subs) => count_sum(h, b, subs@.len() as int),
        Regex::Alternation(subs) => count_branch(h, b, subs@.len() as int),
        _ => 0,
    }
}

/// The sum over the first `n` parts, up to 255.
pub open spec fn count_sum(h: Regex, b: u8, n: int) -> int
    decreases h, 0int, n,
{
    match h {
        Regex::Concat(subs) => if n <= 0 || n > subs@.len() {
            0
        } else {
            clamp_u8(count_sum(h, b, n - 1) + least_count(subs@[n - 1], b))
        },
        _ => 0,
    }
}

/// The least over the first `n` branches, 0 when there is none.
pub open spec fn count_branch(h: Regex, b: u8, n: int) -> int
    decreases h, 0int, n,
{
    match h {
        Regex::Alternation(subs) => if n <= 0 || n > subs@.len() {
            0
        } else if n == 1 || least_count(subs@[n - 1], b) < count_branch(h, b, n - 1) {
            least_count(subs@[n - 1], b)
        } else {
            count_branch(h, b, n - 1)
        },
        _ => 0,
    }
}

/// The need asks for the counts of the pattern, and there is one unless all
/// are zero.
pub open spec fn is_count_need(need: Option<ScanNeed>, h: Regex) -> bool {
    match need {
        Some(ScanNeed::MinByteCounts(counts)) => (forall|b: u8| #[trigger]
            counts.tally()[b as int] == least_count(h, b)) && (exists|b: u8| #[trigger]
            least_count(h, b) != 0),
        Some(_) => false,
        None => forall|b: u8| #[trigger] least_count(h, b) == 0,
    }
}

/// The byte counts every match needs, unless there are none.
pub fn byte_counts(hir: &Regex) -> (need: Option<ScanNeed>)
    ensures
        is_count_need(need, *hir),
{
    let need = ByteCountNeed::from_hir(hir);
    let empty = need.counts.is_empty();
    proof {
        assert forall|b: u8| #[trigger] need.counts.tally()[b as int] == least_count(*hir, b) by {}
        if empty {
            assert forall|b: u8| #[trigger] least_count(*hir, b) == 0 by {
                assert(need.counts.tally()[b as int] == 0);
            }
        } else {
            let k = choose|k: int| 0 <= k < 256 && #[trigger] need.counts.tally()[k] != 0;
            assert(least_count(*hir, k as u8) != 0);
        }
    }
    if empty {
        None
    } else {
        Some(ScanNeed::MinByteCounts(Box::new(need.counts)))
    }
}

#[derive(Debug, Clone, Copy)]
struct ByteCountNeed {
    counts: SaturatingByteCounts256,
}

impl ByteCountNeed {
    fn from_hir(hir: &Regex) -> (need: ByteCountNeed)
        ensures
            forall|b: u8| #[trigger] need.counts.tally()[b as int] == least_count(*hir, b),
        decreases hir, 1int,
    {
        match hir {
            Regex::Empty => ByteCountNeed { counts: SaturatingByteCounts256::default() },
            Regex::Look(_) => ByteCountNeed { counts: SaturatingByteCounts256::default() },
            Regex::Class(_) => ByteCountNeed { counts: SaturatingByteCounts256::default() },
            Regex::Literal(bytes) => ByteCountNeed::from_literal(bytes.as_slice()),
            Regex::Repetition(rep) => ByteCountNeed::from_hir(&rep.sub).repeated(rep.min),
            Regex::Capture(sub) => ByteCountNeed::from_hir(sub),
            Regex::Concat(_) => ByteCountNeed::from_concat(hir),
            Regex::Alternation(_) => ByteCountNeed::from_alternation(hir),
        }
    }

    fn from_literal(bytes: &[u8]) -> (need: ByteCountNeed)
        ensures
            forall|b: u8| #[trigger]
                need.counts.tally()[b as int] == clamp_u8(occurrences(bytes@, b) as int),
    {
        let mut counts = SaturatingByteCounts256::default();
        let mut i: usize = 0;
        while i < bytes.len()
            invariant
                i <= bytes@.len(),
                counts.tally().len() == 256,
                forall|b: u8| #[trigger]
                    counts.tally()[b as int] == clamp_u8(
                        occurrences(bytes@.take(i as int), b) as int,
                    ),
            decreases bytes@.len() - i,
        {
            assert(bytes@.take(i + 1).drop_last() =~= bytes@.take(i as int));
            let ghost prior = counts.tally();
            counts.observe(bytes[i]);
            assert forall|b: u8| #[trigger] counts.tally()[b as int] == clamp_u8(
                occurrences(bytes@.take(i + 1), b) as int,
            ) by {
                assert(prior[b as int] == clamp_u8(occurrences(bytes@.take(i as int), b) as int));
            }
            i = i + 1;
        }
        assert(bytes@.take(i as int) =~= bytes@);
        ByteCountNeed { counts }
    }

    fn from_concat(hir: &Regex) -> (need: ByteCountNeed)
        requires
            hir is Concat,
        ensures
            forall|b: u8| #[trigger] need.counts.tally()[b as int] == least_count(*hir, b),
        decreases hir, 0int,
    {
        let mut acc = ByteCountNeed { counts: SaturatingByteCounts256::default() };
        if let Regex::Concat(subs) = hir {
            let mut i: usize = 0;
            while i < subs.len()
                invariant
                    i <= subs@.len(),
                    *hir == Regex::Concat(*subs),
                    hir->Concat_0 == *subs,
                    forall|b: u8| #[trigger]
                        acc.counts.tally()[b as int] == count_sum(*hir, b, i as int),
                decreases subs@.len() - i,
            {
                let ghost sub = subs@[i as int];
                let more = ByteCountNeed::from_hir(&subs[i]);
                acc = acc.plus(more);
                i = i + 1;
            }
        }
        acc
    }

    fn from_alternation(hir: &Regex) -> (need: ByteCountNeed)
        requires
            hir is Alternation,
        ensures
            forall|b: u8| #[trigger] need.counts.tally()[b as int] == least_count(*hir, b),
        decreases hir, 0int,
    {
        let mut acc = ByteCountNeed { counts: SaturatingByteCounts256::default() };
        if let Regex::Alternation(subs) = hir {
            if subs.len() == 0 {
                assert forall|b: u8| #[trigger] acc.counts.tally()[b as int] == least_count(
                    *hir,
                    b,
                ) by {
                    assert(count_branch(*hir, b, 0) == 0);
                }
                return acc;
            }
            acc = ByteCountNeed::from_hir(&subs[0]);
            let mut i: usize = 1;
            while i < subs.len()
                invariant
                    1 <= i <= subs@.len(),
                    *hir == Regex::Alternation(*subs),
                    hir->Alternation_0 == *subs,
                    forall|b: u8| #[trigger]
                        acc.counts.tally()[b as int] == count_branch(*hir, b, i as int),
                decreases subs@.len() - i,
            {
                let ghost sub = subs@[i as int];
                let other = ByteCountNeed::from_hir(&subs[i]);
                acc = acc.keep_branch_min(other);
                i = i + 1;
            }
        }
        acc
    }

    fn repeated(self, min: u32) -> (need: ByteCountNeed)
        ensures
            forall|b: u8| #[trigger]
                need.counts.tally()[b as int] == clamp_u8(self.counts.tally()[b as int] * min),
    {
        let mut counts: [u8; 256] = [0;256];
        let old_counts = self.counts.counts();
        let mut b: usize = 0;
        while b < 256
            invariant
                b <= 256,
                old_counts@ == self.counts.tally(),
                forall|k: int| 0 <= k < b ==> #[trigger] counts@[k] == clamp_u8(old_counts@[k] * min),
            decreases 256 - b,
        {
            counts[b] = repeat_count(old_counts[b], min);
            b = b + 1;
        }
        ByteCountNeed { counts: SaturatingByteCounts256::from_counts(counts) }
    }

    fn plus(self, other: ByteCountNeed) -> (need: ByteCountNeed)
        ensures
            forall|b: u8| #[trigger]
                need.counts.tally()[b as int] == clamp_u8(
                    self.counts.tally()[b as int] + other.counts.tally()[b as int],
                ),
    {
        let mut counts: [u8; 256] = [0;256];
        let left = self.counts.counts();
        let right = other.counts.counts();
        let mut b: usize = 0;
        while b < 256
            invariant
                b <= 256,
                left@ == self.counts.tally(),
                right@ == other.counts.tally(),
                forall|k: int|
                    0 <= k < b ==> #[trigger] counts@[k] == clamp_u8(left@[k] + right@[k]),
            decreases 256 - b,
        {
            counts[b] = left[b].saturating_add(right[b]);
            b = b + 1;
        }
        ByteCountNeed { counts: SaturatingByteCounts256::from_counts(counts) }
    }

    fn keep_branch_min(self, other: ByteCountNeed) -> (need: ByteCountNeed)
        ensures
            forall|b: u8| #[trigger]
                need.counts.tally()[b as int] == if other.counts.tally()[b as int]
                    < self.counts.tally()[b as int] {
                    other.counts.tally()[b as int]
                } else {
                    self.counts.tally()[b as int]
                },
    {
        let mut counts: [u8; 256] = [0;256];
        let left = self.counts.counts();
        let right = other.counts.counts();
        let mut b: usize = 0;
        while b < 256
            invariant
                b <= 256,
                left@ == self.counts.tally(),
                right@ == other.counts.tally(),
                forall|k: int|
                    0 <= k < b ==> #[trigger] counts@[k] == if right@[k] < left@[k] {
                        right@[k]
                    } else {
                        left@[k]
                    },
            decreases 256 - b,
        {
            counts[b] = if right[b] < left[b] {
                right[b]
            } else {
                left[b]
            };
            b = b + 1;
        }
        ByteCountNeed { counts: SaturatingByteCounts256::from_counts(counts) }
    }
}

fn repeat_count(count: u8, times: u32) -> (n: u8)
    ensures
        n == clamp_u8(count * times),
{
    assert(count * times <= 255 * 0xFFFF_FFFF) by (nonlinear_arith)
        requires
            count <= 255,
            times <= 0xFFFF_FFFF,
    ;
    let product: u64 = (count as u64) * (times as u64);
    if product > 255 {
        255
    } else {
        product as u8
    }
}

/// Whether a match may hold a line break.
pub fn can_match_newline(hir: &Regex) -> (can: bool)
    ensures
        can == allows_newline(*hir),
    decreases hir,
{
    match hir {
        Regex::Empty => false,
        Regex::Look(_) => false,
        Regex::Literal(bytes) => {
            let mut i: usize = 0;
            while i < bytes.len()
                invariant
                    i <= bytes@.len(),
                    *hir == Regex::Literal(*bytes),
                    forall|k: int| 0 <= k < i ==> bytes@[k] != 10,
                decreases bytes@.len() - i,
            {
                if bytes[i] == 10 {
                    assert(bytes@[i as int] == 10);
                    assert(bytes@.contains(10));
                    return true;
                }
                i = i + 1;
            }
            false
        },
        Regex::Class(class) => class_has_newline(class),
        Regex::Repetition(rep) => {
            let none = match rep.max {
                Some(max) => max == 0,
                None => false,
            };
            !none && can_match_newline(&rep.sub)
        },
        Regex::Capture(sub) => can_match_newline(sub),
        Regex::Concat(subs) => {
            let mut i: usize = 0;
            while i < subs.len()
                invariant
                    i <= subs@.len(),
                    *hir == Regex::Concat(*subs),
                    hir->Concat_0 == *subs,
                    forall|k: int| 0 <= k < i ==> !allows_newline(#[trigger] subs@[k]),
                decreases subs@.len() - i,
            {
                let ghost sub = subs@[i as int];
                if can_match_newline(&subs[i]) {
                    assert(allows_newline(subs@[i as int]));
                    return true;
                }
                i = i + 1;
            }
            false
        },
        Regex::Alternation(subs) => {
            let mut i: usize = 0;
            while i < subs.len()
                invariant
                    i <= subs@.len(),
                    *hir == Regex::Alternation(*subs),
                    hir->Alternation_0 == *subs,
                    forall|k: int| 0 <= k < i ==> !allows_newline(#[trigger] subs@[k]),
                decreases subs@.len() - i,
            {
                let ghost sub = subs@[i as int];
                if can_match_newline(&subs[i]) {
                    assert(allows_newline(subs@[i as int]));
                    return true;
                }
                i = i + 1;
            }
            false
        },
    }
}

fn class_has_newline(class: &CharClass) -> (has: bool)
    ensures
        has == class_newline(*class),
{
    match class {
        CharClass::Bytes(ranges) => {
            let mut i: usize = 0;
            while i < ranges.len()
                invariant
                    i <= ranges@.len(),
                    *class == CharClass::Bytes(*ranges),
                    forall|k: int|
                        0 <= k < i ==> !((#[trigger] ranges@[k]).0 <= 10 <= ranges@[k].1),
                decreases ranges@.len() - i,
            {
                if ranges[i].0 <= 10 && 10 <= ranges[i].1 {
                    assert(ranges@[i as int].0 <= 10 <= ranges@[i as int].1);
                    return true;
                }
                i = i + 1;
            }
            false
        },
        CharClass::Unicode(ranges) => {
            let mut i: usize = 0;
            while i < ranges.len()
                invariant
                    i <= ranges@.len(),
                    *class == CharClass::Unicode(*ranges),
                    forall|k: int|
                        0 <= k < i ==> !((#[trigger] ranges@[k]).0 <= 10 <= ranges@[k].1),
                decreases ranges@.len() - i,
            {
                if ranges[i].0 <= 10 && 10 <= ranges[i].1 {
                    assert(ranges@[i as int].0 <= 10 <= ranges@[i as int].1);
                    return true;
                }
                i = i + 1;
            }
            false
        },
    }
}

/// Length of the shortest match, up to the largest `u64`.
pub fn min_match_len(hir: &Regex) -> (len: u64)
    ensures
        len == clamp_u64(shortest(*hir) as int),
    decreases hir,
{
    match hir {
        Regex::Empty => 0,
        Regex::Look(_) => 0,
        Regex::Literal(bytes) => bytes.len() as u64,
        Regex::Class(_) => 1,
        Regex::Repetition(rep) => {
            let sub: u64 = min_match_len(&rep.sub);
            proof {
                lemma_clamp_mul(rep.min as int, shortest(*rep.sub) as int);
            }
            mul_to_max_u64(rep.min as u64, sub)
        },
        Regex::Capture(sub) => min_match_len(sub),
        Regex::Concat(subs) => {
            let mut sum: u64 = 0;
            let mut i: usize = 0;
            while i < subs.len()
                invariant
                    i <= subs@.len(),
                    *hir == Regex::Concat(*subs),
                    hir->Concat_0 == *subs,
                    sum == clamp_u64(shortest_sum(*hir, i as int) as int),
                decreases subs@.len() - i,
            {
                let ghost sub = subs@[i as int];
                let more: u64 = min_match_len(&subs[i]);
                sum = add_to_max_u64(sum, more);
                i = i + 1;
            }
            sum
        },
        Regex::Alternation(subs) => {
            if subs.len() == 0 {
                assert(shortest_branch(*hir, 0) == 0);
                return 0;
            }
            let mut least: u64 = min_match_len(&subs[0]);
            let mut i: usize = 1;
            while i < subs.len()
                invariant
                    1 <= i <= subs@.len(),
                    *hir == Regex::Alternation(*subs),
                    hir->Alternation_0 == *subs,
                    least == clamp_u64(shortest_branch(*hir, i as int) as int),
                decreases subs@.len() - i,
            {
                let ghost sub = subs@[i as int];
                let other: u64 = min_match_len(&subs[i]);
                if other < least {
                    least = other;
                }
                i = i + 1;
            }
            least
        },
    }
}

proof fn lemma_clamp_mul(a: int, b: int)
    requires
        a >= 0,
        b >= 0,
    ensures
        clamp_u64(a * clamp_u64(b)) == clamp_u64(a * b),
{
    if b > u64::MAX {
        let m = u64::MAX as int;
        if a == 0 {
            assert(a * m == 0 && a * b == 0) by (nonlinear_arith)
                requires
                    a == 0,
            ;
        } else {
            assert(a * m >= m && a * b >= b) by (nonlinear_arith)
                requires
                    a >= 1,
                    m >= 0,
                    b >= 0,
            ;
        }
    }
}

} // verus!
