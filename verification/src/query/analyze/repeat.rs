//! Repetition analysis: expansion, enumeration, and demotion.

use vstd::prelude::*;

use crate::num::{clamp, mul_to_max};
use crate::query::algebra::weight;
use crate::query::analyze::{grams_left, spent, Analyzer, Stage, MAX_EXACT, MAX_EXACT_BYTES};
use crate::query::combine::{alternated, concatenated};
use crate::query::flush::{sets_flushed, simplified};
use crate::query::info::{any_match, blank, empty_string, no_match, Info, RegexpInfo};
use crate::query::order::Order;
use crate::query::strings::{byte_len, crossed, selected, united, StringSet};

verus! {

/// Copies of a bounded repetition expanded into an explicit concatenation:
/// `x{3}` analyzes as `xxx`, `x{5,}` as `xxx` then `x+`. Beyond this many
/// copies the tail is conservatively folded into the `x+` form.
pub const MAX_REPEAT_EXPAND: u32 = 4;

/// A set too large to keep as exact strings.
pub open spec fn too_large(set: Seq<Seq<u8>>) -> bool {
    set.len() > MAX_EXACT || byte_len(set) > MAX_EXACT_BYTES
}

/// The closed repetition from the `k`-fold power on: the union of the powers
/// up to `max`, unless a set on the way is too large.
pub open spec fn powers_from(
    e: Seq<Seq<u8>>,
    min: int,
    max: int,
    k: int,
    power: Seq<Seq<u8>>,
    union: Seq<Seq<u8>>,
) -> Option<Seq<Seq<u8>>>
    decreases max - k,
{
    let union1 = if k >= min {
        united(union, power, Order::Prefix)
    } else {
        union
    };
    if k >= min && too_large(union1) {
        None
    } else if k >= max {
        Some(union1)
    } else {
        let power1 = crossed(power, e, Order::Prefix);
        if too_large(power1) {
            None
        } else {
            powers_from(e, min, max, k + 1, power1, union1)
        }
    }
}

/// The exact language of a closed repetition of the exact set `e`, unless it
/// is too large at any point while it is built.
pub open spec fn power_union(e: Seq<Seq<u8>>, min: int, max: int) -> Option<Seq<Seq<u8>>> {
    powers_from(e, min, max, 0, seq![Seq::empty()], Seq::empty())
}

/// The weight of a summary's query, as far as it can be counted.
pub open spec fn query_weight(x: Info) -> int {
    clamp(weight(x.query) as int)
}

/// The most copies of a query the budget allows, at least one.
pub open spec fn affordable(g: Stage, x: Info, wanted: int) -> int {
    let w = query_weight(x);
    if w == 0 {
        wanted
    } else {
        let most = if grams_left(g) / w < 1 {
            1
        } else {
            grams_left(g) / w
        };
        if wanted < most {
            wanted
        } else {
            most
        }
    }
}

/// `x+`: the exact set becomes the prefixes, the suffixes and the run base.
pub open spec fn plus_of(x: Info) -> Info {
    match x.exact {
        Some(e) => Info { exact: None, prefix: e, suffix: e, plus_base: Some(e), ..x },
        None => x,
    }
}

/// The non-empty strings.
pub open spec fn nonempty(e: Seq<Seq<u8>>) -> Seq<Seq<u8>> {
    selected(e, Seq::new(e.len(), |i: int| e[i].len() > 0))
}

/// `x*` over a finite exact set with a non-empty member.
pub open spec fn star_of(x: Info) -> Option<Info> {
    match x.exact {
        Some(exact) => {
            let e = nonempty(exact);
            if e.len() == 0 {
                None
            } else {
                Some(
                    Info {
                        can_empty: true,
                        exact: None,
                        prefix: e,
                        suffix: e,
                        plus_base: Some(e),
                        ..x
                    },
                )
            }
        },
        None => None,
    }
}

/// Some string is empty.
pub open spec fn has_empty(set: Seq<Seq<u8>>) -> bool {
    exists|i: int| 0 <= i < set.len() && (#[trigger] set[i]).len() == 0
}

/// A closed repetition of an exact base without grams of its own, as its
/// whole language.
pub open spec fn exact_expanded(g: Stage, base: Info, min: int, max: int) -> Option<(Info, Stage)> {
    match base.exact {
        Some(exact) => if exact.len() == 0 || query_weight(base) != 0 {
            None
        } else {
            match power_union(exact, min, max) {
                Some(set) => Some(
                    simplified(
                        g,
                        Info { can_empty: has_empty(set), exact: Some(set), ..blank() },
                        false,
                    ),
                ),
                None => None,
            }
        },
        None => None,
    }
}

/// `k` copies of `base`, one after the other.
pub open spec fn powered(g: Stage, base: Info, k: int) -> (Info, Stage)
    decreases k,
{
    if k <= 0 {
        (empty_string(), g)
    } else {
        let (x, g1) = powered(g, base, k - 1);
        concatenated(g1, x, base)
    }
}

/// The first `n` of `copies` copies, the second (or only) one in the
/// one-or-more form unless the count is whole.
pub open spec fn copies_upto(g: Stage, base: Info, copies: int, whole: bool, n: int) -> (
    Info,
    Stage,
)
    decreases n,
{
    let demote_at = if copies == 1 {
        1int
    } else {
        2int
    };
    let part = if n != demote_at || whole {
        base
    } else {
        plus_of(base)
    };
    if n <= 0 {
        (any_match(), g)
    } else if n == 1 {
        (part, g)
    } else {
        let (x, g1) = copies_upto(g, base, copies, whole, n - 1);
        concatenated(g1, x, part)
    }
}

/// An already-analyzed base expanded to as many copies as the bounds afford.
pub open spec fn expanded(g: Stage, base: Info, min: int, exact_count: bool) -> (Info, Stage)
    decreases (if min == 2 { 1int } else { 0int }),
{
    let copies = affordable(
        g,
        base,
        if min < MAX_REPEAT_EXPAND {
            min
        } else {
            MAX_REPEAT_EXPAND as int
        },
    );
    let whole = exact_count && copies == min;
    if min == 2 && !whole && copies == 2 {
        let (two, g1) = powered(g, base, 2);
        let (three, g2) = expanded(g1, base, 3, false);
        let (flushed, g3) = sets_flushed(g2, three);
        alternated(g3, two, flushed)
    } else {
        let extra = if copies >= 1 {
            copies - 1
        } else {
            0
        };
        let g1 = spent(g, clamp(query_weight(base) * extra));
        let (x, g2) = copies_upto(g1, base, copies, whole, copies);
        simplified(g2, x, false)
    }
}

/// The alternation of the counts from `min` to `n`.
pub open spec fn counts_upto(g: Stage, base: Info, min: int, n: int) -> (Info, Stage)
    decreases n - min,
{
    if n < min {
        (no_match(), g)
    } else if n == min {
        let (x, g1) = powered(g, base, n);
        sets_flushed(g1, x)
    } else {
        let (acc, g1) = counts_upto(g, base, min, n - 1);
        let (x, g2) = powered(g1, base, n);
        let (y, g3) = sets_flushed(g2, x);
        alternated(g3, acc, y)
    }
}

/// The sum of the numbers from `min` to `max`.
pub open spec fn sum_of(min: int, max: int) -> int
    decreases max - min + 1,
{
    if max < min {
        0
    } else {
        sum_of(min, max - 1) + max
    }
}

/// `x{min,max}` with a small `max`, count by count.
pub open spec fn enumerated_counts(g: Stage, base: Info, min: int, max: int) -> (Info, Stage) {
    let total = sum_of(min, max);
    if affordable(g, base, total) < total {
        if min == 0 {
            (any_match(), g)
        } else {
            expanded(g, base, min, false)
        }
    } else {
        counts_upto(spent(g, clamp(query_weight(base) * total)), base, min, max)
    }
}

/// The summary of a repetition of an analyzed base.
pub open spec fn repeated(g: Stage, base: Info, min: int, max: Option<u32>) -> (Info, Stage) {
    if min == 0 && max is None {
        match star_of(base) {
            Some(x) => (x, g),
            None => (any_match(), g),
        }
    } else if max is Some && exact_expanded(g, base, min, max->0 as int) is Some {
        exact_expanded(g, base, min, max->0 as int)->0
    } else if max is Some && max->0 <= MAX_REPEAT_EXPAND {
        enumerated_counts(g, base, min, max->0 as int)
    } else if min == 0 {
        (any_match(), g)
    } else {
        expanded(g, base, min, max matches Some(m) && m == min)
    }
}

impl<'a> Analyzer<'a> {
    /// `x?`, `x*`, `x+`, `x{n,m}` over an analyzed base: expand what is
    /// bounded, collapse the rest.
    ///
    /// When the base analyzes to a small exact set `E` and the closed
    /// repetition's *whole* language stays within [`MAX_EXACT`] strings and
    /// [`MAX_EXACT_BYTES`] bytes, it is expanded to that exact string set even
    /// above [`MAX_REPEAT_EXPAND`] (see [`Self::expand_exact`]). The guard is
    /// on the projected set size, not the pattern shape, so a class-heavy base
    /// like `[0-9a-f]{16}` folds early.
    ///
    /// Otherwise a small `m` enumerates its allowed counts; an unbounded (or
    /// large) minimum expands, so up to [`MAX_REPEAT_EXPAND`] leading copies
    /// are analyzed as an explicit concatenation and the rest fold into the
    /// `x+` form, keeping a full copy on both edges of the run.
    pub fn repetition(&mut self, base: RegexpInfo, min: u32, max: Option<u32>) -> (info: RegexpInfo)
        requires
            base.wf(),
        ensures
            info.wf(),
            (info@, final(self).stage()) == repeated(old(self).stage(), base@, min as int, max),
    {
        if min == 0 && max.is_none() {
            return match demote_star(base) {
                Some(info) => info,
                None => RegexpInfo::any_match(),
            };
        }
        if let Some(max) = max {
            if let Some(info) = self.expand_exact(&base, min, max) {
                return info;
            }
            if max <= MAX_REPEAT_EXPAND {
                return self.enumerate_counts(&base, min, max);
            }
        }
        if min == 0 {
            // a wide optional repetition retains no useful gram
            return RegexpInfo::any_match();
        }
        let exact_count = match max {
            Some(max) => max == min,
            None => false,
        };
        self.expand_from(&base, min, exact_count)
    }

    /// The most extra copies of `info`'s match query the budget allows.
    /// Expanding a repetition clones the whole accumulated query per copy,
    /// which the flush-side accounting never sees; nested repetitions
    /// otherwise multiply the plan by the copy count at every level.
    fn affordable_copies(&self, info: &RegexpInfo, wanted: u32) -> (copies: u32)
        ensures
            copies == affordable(self.stage(), info@, wanted as int),
            copies <= wanted,
            wanted > 0 ==> copies > 0,
    {
        let w: usize = info.match_.weight();
        if w == 0 {
            return wanted;
        }
        let share: usize = self.budget_left() / w;
        let most: usize = if share < 1 {
            1
        } else {
            share
        };
        if (wanted as usize) < most {
            wanted
        } else {
            most as u32
        }
    }

    /// Fully expand a *closed* repetition `x{n,m}` whose base is a small exact
    /// set into its exact string language, the union of the powers of `E` from
    /// `n` to `m`, when that language stays within [`MAX_EXACT`] strings and
    /// [`MAX_EXACT_BYTES`] bytes.
    ///
    /// The result adopts a blank (`All`) match query, dropping that of the
    /// base, so a base with grams of its own falls back to the copy machinery,
    /// where `concat` ANDs its query into every copy.
    fn expand_exact(&mut self, base: &RegexpInfo, min: u32, max: u32) -> (info: Option<RegexpInfo>)
        requires
            base.wf(),
        ensures
            match info {
                Some(info) => info.wf() && exact_expanded(
                    old(self).stage(),
                    base@,
                    min as int,
                    max as int,
                ) == Some((info@, final(self).stage())),
                None => exact_expanded(old(self).stage(), base@, min as int, max as int) is None
                    && final(self).stage() == old(self).stage(),
            },
    {
        match &base.exact {
            None => None,
            Some(exact) => {
                if exact.is_empty() || base.match_.weight() != 0 {
                    return None;
                }
                match bounded_power_union(exact, min, max) {
                    None => None,
                    Some(set) => {
                        let mut info = RegexpInfo::blank();
                        info.can_empty = any_empty(&set);
                        info.exact = Some(set);
                        self.simplify(&mut info, false);
                        Some(info)
                    },
                }
            },
        }
    }

    /// `x{n,m}` with small `m` and a base too wide to expand exactly: the
    /// alternation of every allowed count.
    fn enumerate_counts(&mut self, base: &RegexpInfo, min: u32, max: u32) -> (info: RegexpInfo)
        requires
            base.wf(),
            max <= MAX_REPEAT_EXPAND,
        ensures
            info.wf(),
            (info@, final(self).stage()) == enumerated_counts(
                old(self).stage(),
                base@,
                min as int,
                max as int,
            ),
    {
        let total: u32 = sum_range(min, max);
        if self.affordable_copies(base, total) < total {
            return if min == 0 {
                RegexpInfo::any_match()
            } else {
                self.expand_from(base, min, false)
            };
        }
        let w: usize = base.match_.weight();
        self.spend(mul_to_max(w, total as usize));
        if min > max {
            return RegexpInfo::no_match();
        }
        let ghost g = self.stage();
        let mut info = self.power(base, min);
        self.flush_sets(&mut info);
        let mut k: u32 = min;
        while k < max
            invariant
                min <= k <= max <= MAX_REPEAT_EXPAND,
                base.wf(),
                info.wf(),
                (info@, self.stage()) == counts_upto(g, base@, min as int, k as int),
            decreases max - k,
        {
            k = k + 1;
            let mut power = self.power(base, k);
            self.flush_sets(&mut power);
            info = self.alternate(info, power);
        }
        info
    }

    /// Expand an already-analyzed base to as many copies as
    /// [`MAX_REPEAT_EXPAND`] and the plan budget afford. Unless the count is
    /// exact and fully expanded, the SECOND copy folds the open end as
    /// one-or-more `x` (`x{n,}` is `x · x{1,} · xⁿ⁻²`), keeping a full copy
    /// on both edges: the leading one extends whatever precedes and the
    /// trailing ones sit adjacent to whatever follows.
    fn expand_from(&mut self, base: &RegexpInfo, min: u32, exact_count: bool) -> (info: RegexpInfo)
        requires
            base.wf(),
        ensures
            info.wf(),
            (info@, final(self).stage()) == expanded(
                old(self).stage(),
                base@,
                min as int,
                exact_count,
            ),
        decreases (if min == 2 { 1int } else { 0int }), 1int,
    {
        let wanted: u32 = if min < MAX_REPEAT_EXPAND {
            min
        } else {
            MAX_REPEAT_EXPAND
        };
        let copies: u32 = self.affordable_copies(base, wanted);
        let whole = exact_count && copies == min;
        if min == 2 && !whole && copies == 2 {
            return self.split_min_two(base);
        }
        let extra: u32 = if copies >= 1 {
            copies - 1
        } else {
            0
        };
        let w: usize = base.match_.weight();
        self.spend(mul_to_max(w, extra as usize));
        let mut info = self.concat_copies(base, copies, whole);
        self.simplify(&mut info, false);
        info
    }

    /// Concatenate `copies` of `base`, demoting the second (or only) copy
    /// to the one-or-more form unless the count is whole.
    fn concat_copies(&mut self, base: &RegexpInfo, copies: u32, whole: bool) -> (info: RegexpInfo)
        requires
            base.wf(),
            copies < u32::MAX,
        ensures
            info.wf(),
            (info@, final(self).stage()) == copies_upto(
                old(self).stage(),
                base@,
                copies as int,
                whole,
                copies as int,
            ),
    {
        if copies == 0 {
            return RegexpInfo::any_match();
        }
        let ghost g = self.stage();
        let demote_at: u32 = if copies == 1 {
            1
        } else {
            2
        };
        let mut info = copy_part(base, 1, demote_at, whole);
        let mut i: u32 = 1;
        while i < copies
            invariant
                1 <= i <= copies,
                base.wf(),
                info.wf(),
                demote_at == if copies == 1 {
                    1u32
                } else {
                    2u32
                },
                (info@, self.stage()) == copies_upto(g, base@, copies as int, whole, i as int),
            decreases copies - i,
        {
            i = i + 1;
            let part = copy_part(base, i, demote_at, whole);
            info = self.concat(info, part);
        }
        info
    }

    /// `x{2,}` as the exact split `x{2} | x{3,}`: middle demotion needs
    /// three copies to keep two on each edge, so each branch carries two
    /// copies on both edges and seams span the repeat run either way.
    fn split_min_two(&mut self, base: &RegexpInfo) -> (info: RegexpInfo)
        requires
            base.wf(),
        ensures
            info.wf(),
            (info@, final(self).stage()) == ({
                let (two, g1) = powered(old(self).stage(), base@, 2);
                let (three, g2) = expanded(g1, base@, 3, false);
                let (flushed, g3) = sets_flushed(g2, three);
                alternated(g3, two, flushed)
            }),
        decreases 1int, 0int,
    {
        let two = self.power(base, 2);
        let mut three = self.expand_from(base, 3, false);
        self.flush_sets(&mut three);
        self.alternate(two, three)
    }

    /// `x` concatenated with itself `k` times; zero copies match only the
    /// empty string.
    fn power(&mut self, base: &RegexpInfo, k: u32) -> (info: RegexpInfo)
        requires
            base.wf(),
        ensures
            info.wf(),
            (info@, final(self).stage()) == powered(old(self).stage(), base@, k as int),
    {
        let ghost g = self.stage();
        let mut info = RegexpInfo::empty_string();
        let mut i: u32 = 0;
        while i < k
            invariant
                i <= k,
                base.wf(),
                info.wf(),
                (info@, self.stage()) == powered(g, base@, i as int),
            decreases k - i,
        {
            info = self.concat(info, base.duplicate());
            i = i + 1;
        }
        info
    }
}

/// One copy of a repeated base.
fn copy_part(base: &RegexpInfo, i: u32, demote_at: u32, whole: bool) -> (part: RegexpInfo)
    requires
        base.wf(),
    ensures
        part.wf(),
        part@ == if i != demote_at || whole {
            base@
        } else {
            plus_of(base@)
        },
{
    if i != demote_at || whole {
        base.duplicate()
    } else {
        demote_plus(base.duplicate())
    }
}

/// The sum of the numbers from `min` to `max`.
fn sum_range(min: u32, max: u32) -> (total: u32)
    requires
        max <= MAX_REPEAT_EXPAND,
    ensures
        total == sum_of(min as int, max as int),
{
    let mut total: u32 = 0;
    let mut k: u32 = min;
    if max < min {
        return 0;
    }
    proof {
        assert(sum_of(min as int, min - 1) == 0);
    }
    while k <= max
        invariant
            min <= k <= max + 1,
            max <= MAX_REPEAT_EXPAND,
            total == sum_of(min as int, k - 1),
            total <= 4 * k,
        decreases max + 1 - k,
    {
        total = total + k;
        k = k + 1;
    }
    total
}

/// Whether some string is empty.
fn any_empty(set: &StringSet) -> (found: bool)
    ensures
        found == has_empty(set@),
{
    let mut i: usize = 0;
    while i < set.len()
        invariant
            i <= set@.len(),
            forall|k: int| 0 <= k < i ==> (#[trigger] set@[k]).len() > 0,
        decreases set@.len() - i,
    {
        if set.at(i).is_empty() {
            assert(set@[i as int].len() == 0);
            return true;
        }
        i = i + 1;
    }
    false
}

/// `x+`: at least one `x`, so prefixes and suffixes survive but the whole is
/// no longer an exact set.
///
/// When the base is a small exact set `E`, the demoted `E+` records `E` as its
/// run base so the enclosing concat can tighten the seam where the run meets a
/// neighbour: `E` alone is an exhaustive prefix/suffix, so the second boundary
/// byte can only be pinned down at the cross, not in the set. A non-exact base
/// has no finite set to cross with.
fn demote_plus(info: RegexpInfo) -> (plus: RegexpInfo)
    requires
        info.wf(),
    ensures
        plus.wf(),
        plus@ == plus_of(info@),
{
    let mut info = info;
    let mut taken: Option<StringSet> = None;
    core::mem::swap(&mut taken, &mut info.exact);
    if let Some(exact) = taken {
        info.prefix = exact.duplicate();
        info.suffix = exact.duplicate();
        info.plus_base = Some(exact);
    }
    info
}

/// `x*` over a finite, non-empty exact set keeps bounded edge context while
/// still allowing the empty match through `can_empty`.
fn demote_star(info: RegexpInfo) -> (star: Option<RegexpInfo>)
    requires
        info.wf(),
    ensures
        match star {
            Some(star) => star.wf() && star_of(info@) == Some(star@),
            None => star_of(info@) is None,
        },
{
    let mut info = info;
    let mut taken: Option<StringSet> = None;
    core::mem::swap(&mut taken, &mut info.exact);
    match taken {
        None => None,
        Some(mut exact) => {
            keep_nonempty(&mut exact);
            if exact.is_empty() {
                return None;
            }
            info.can_empty = true;
            info.prefix = exact.duplicate();
            info.suffix = exact.duplicate();
            info.plus_base = Some(exact);
            Some(info)
        },
    }
}

/// Drop the empty string.
fn keep_nonempty(set: &mut StringSet)
    requires
        old(set).wf(),
    ensures
        final(set).wf(),
        final(set)@ == nonempty(old(set)@),
{
    let mut keep: Vec<bool> = Vec::new();
    let mut i: usize = 0;
    while i < set.len()
        invariant
            i <= set@.len(),
            keep@.len() == i,
            forall|k: int| 0 <= k < i ==> (#[trigger] keep@[k]) == (set@[k].len() > 0),
        decreases set@.len() - i,
    {
        keep.push(!set.at(i).is_empty());
        i = i + 1;
    }
    assert(keep@ =~= Seq::new(set@.len(), |i: int| set@[i].len() > 0));
    set.select(&keep);
}

/// The exact language of a closed repetition of the exact set `E`, the union
/// of its powers from `min` to `max`, or `None` if it would exceed
/// [`MAX_EXACT`] strings or [`MAX_EXACT_BYTES`] bytes at any point while it is
/// built.
///
/// The power grows by one cross with `E` per step, and the guard is checked
/// before each growth, so a class-heavy base bails within a few steps instead
/// of ever materializing the explosion.
pub fn bounded_power_union(base: &StringSet, min: u32, max: u32) -> (set: Option<StringSet>)
    requires
        base.wf(),
    ensures
        match set {
            Some(set) => set.wf() && power_union(base@, min as int, max as int) == Some(set@),
            None => power_union(base@, min as int, max as int) is None,
        },
{
    let mut power = crate::query::info::empty_member();
    let mut union = StringSet::new();
    let mut k: u32 = 0;
    let ghost goal = power_union(base@, min as int, max as int);
    while k < max
        invariant
            k <= max,
            base.wf(),
            power.wf(),
            union.wf(),
            goal == power_union(base@, min as int, max as int),
            goal == powers_from(base@, min as int, max as int, k as int, power@, union@),
        decreases max - k,
    {
        if k >= min {
            union = union.union(&power, Order::Prefix);
            if union.len() > MAX_EXACT || union.byte_len() > MAX_EXACT_BYTES {
                return None;
            }
        }
        power = power.cross(base, Order::Prefix);
        if power.len() > MAX_EXACT || power.byte_len() > MAX_EXACT_BYTES {
            return None;
        }
        k = k + 1;
    }
    if max >= min {
        union = union.union(&power, Order::Prefix);
        if union.len() > MAX_EXACT || union.byte_len() > MAX_EXACT_BYTES {
            return None;
        }
    }
    Some(union)
}

} // verus!
