//! Bounded simplification: flushing string sets into the match query.
//!
//! `simplify` keeps the exact/prefix/suffix sets and the match query from
//! growing without bound, flushing their grams into the query as they get
//! large.

use vstd::prelude::*;

use crate::query::algebra::{Query, Tree};
use crate::query::analyze::{
    can_flush, grams_left, Analyzer, Stage, BOUNDARY_GROW, BOUNDARY_KEEP, MAX_EXACT,
    MAX_EXACT_BYTES, MAX_SET,
};
use crate::query::covers::{and_set, single_covers, with_grams};
use crate::query::info::{Info, RegexpInfo};
use crate::query::order::{cleaned, Order};
use crate::query::settings::QuerySettings;
use crate::query::strings::{byte_len, cut_all, max_len, min_len, StringSet};

verus! {

/// Most strings ever covered in one flush. Case-folded text doubles per
/// character and stays under this; a wide class (like a hex digit) multiplies
/// by its arity and would otherwise balloon the plan into thousands of OR
/// branches in a single step.
pub const MAX_FLUSH_SET: usize = 512;

/// After a count-overflow flush, sets shrink to this many strings so several
/// characters of regrowth fit before the next flush: case-folded windows
/// then flush every few characters instead of every character.
pub const REGROW_TARGET: usize = 32;

/// Bytes of context kept once the budget is spent.
pub const SKELETAL_KEEP: usize = 4;

/// Strings kept once the budget is spent.
pub const SKELETAL_COUNT: usize = 16;

/// The summary with the grams covering its exact set in its query.
pub open spec fn exact_added(g: Stage, x: Info) -> (Info, Stage) {
    match x.exact {
        Some(exact) => {
            let (query, g1) = and_set(g, x.query, exact, Order::Prefix);
            (Info { query, ..x }, g1)
        },
        None => (x, g),
    }
}

/// The summary with its exact set moved into prefix and suffix stubs.
pub open spec fn spilled(x: Info, exact: Seq<Seq<u8>>) -> Info {
    Info {
        prefix: x.prefix + cut_all(Order::Prefix, exact, BOUNDARY_KEEP as int),
        suffix: x.suffix + cut_all(Order::Suffix, exact, BOUNDARY_KEEP as int),
        ..x
    }
}

/// The summary with its exact set covered, then spilled.
pub open spec fn exact_flushed(g: Stage, x: Info) -> (Info, Stage) {
    let (y, g1) = exact_added(g, x);
    match y.exact {
        Some(exact) => (spilled(Info { exact: None, ..y }, exact), g1),
        None => (y, g1),
    }
}

/// The summary with its prefix and suffix covers in its query. An empty match
/// shows none of the strings, so a summary that allows one stays as it is.
#[verifier::opaque]
pub open spec fn sets_flushed(g: Stage, x: Info) -> (Info, Stage) {
    if x.exact is Some || x.can_empty {
        (x, g)
    } else {
        let (q1, g1) = and_set(g, x.query, x.prefix, Order::Prefix);
        let (q2, g2) = and_set(g1, q1, x.suffix, Order::Suffix);
        (Info { query: q2, ..x }, g2)
    }
}

/// The exact set has grown large enough, or selective enough, to flush.
pub open spec fn exact_overflows(x: Info, force: bool) -> bool {
    x.exact matches Some(exact) && (exact.len() > MAX_EXACT || byte_len(exact) > MAX_EXACT_BYTES
        || (min_len(exact) >= QuerySettings::MIN_GRAM_LEN && force))
}

/// Cut ever shorter, a byte at a time, until at most `target` strings are
/// left or one byte is.
pub open spec fn shrunk(order: Order, t: Seq<Seq<u8>>, keep: int, target: int) -> Seq<Seq<u8>>
    decreases keep,
{
    let c = cleaned(order, cut_all(order, t, keep));
    if c.len() <= target || keep <= 1 {
        c
    } else {
        shrunk(order, c, keep - 1, target)
    }
}

/// The lesser of two numbers.
pub open spec fn least(a: int, b: int) -> int {
    if a < b {
        a
    } else {
        b
    }
}

/// The set shrunk back under its bounds.
pub open spec fn reduced(order: Order, t: Seq<Seq<u8>>) -> Seq<Seq<u8>> {
    shrunk(
        order,
        t,
        least(BOUNDARY_KEEP as int, max_len(t) as int),
        if t.len() > MAX_SET {
            REGROW_TARGET as int
        } else {
            MAX_SET as int
        },
    )
}

/// The handful of short stubs kept once the budget is spent.
pub open spec fn skeletal(order: Order, t: Seq<Seq<u8>>) -> Seq<Seq<u8>> {
    shrunk(order, t, least(SKELETAL_KEEP as int, max_len(t) as int), SKELETAL_COUNT as int)
}

/// `s` starts (or ends) with `p`, the end `order` names.
pub open spec fn extends(order: Order, p: Seq<u8>, s: Seq<u8>) -> bool {
    p.len() <= s.len() && p == match order {
        Order::Prefix => s.subrange(0, p.len() as int),
        Order::Suffix => s.subrange(s.len() - p.len(), s.len() as int),
    }
}

/// The strings without those that extend the last one kept before them.
pub open spec fn pruned(order: Order, t: Seq<Seq<u8>>) -> Seq<Seq<u8>>
    decreases t.len(),
{
    if t.len() == 0 {
        Seq::empty()
    } else {
        let kept = pruned(order, t.drop_last());
        if kept.len() > 0 && extends(order, kept.last(), t.last()) {
            kept
        } else {
            kept.push(t.last())
        }
    }
}

/// The prefix or suffix set.
pub open spec fn edge_set(x: Info, order: Order) -> Seq<Seq<u8>> {
    match order {
        Order::Prefix => x.prefix,
        Order::Suffix => x.suffix,
    }
}

/// The summary with another prefix or suffix set.
pub open spec fn with_edge_set(x: Info, order: Order, t: Seq<Seq<u8>>) -> Info {
    match order {
        Order::Prefix => Info { prefix: t, ..x },
        Order::Suffix => Info { suffix: t, ..x },
    }
}

/// One gram per string of an oversized set goes into the query before the set
/// shrinks, unless an empty match may show none of them.
pub open spec fn large_flushed(
    g: Stage,
    q: Tree,
    can_empty: bool,
    t: Seq<Seq<u8>>,
    order: Order,
) -> (
    (Tree, Stage),
    Seq<Seq<u8>>,
    bool,
) {
    if t.len() <= MAX_FLUSH_SET {
        ((q, g), t, false)
    } else {
        let small = pruned(order, reduced(order, t));
        if can_empty {
            ((q, g), small, false)
        } else {
            match single_covers(g.table, t, grams_left(g)) {
                Some(grams) => (with_grams(g, q, grams), small, true),
                None => ((q, g), small, false),
            }
        }
    }
}

/// The set is too large or its strings too long to keep.
pub open spec fn must_reduce(t: Seq<Seq<u8>>) -> bool {
    t.len() > MAX_SET || max_len(t) > BOUNDARY_GROW
}

/// The summary with its prefix or suffix set bounded.
pub open spec fn set_simplified(g: Stage, x: Info, order: Order, force: bool) -> (Info, Stage) {
    let t = cleaned(order, edge_set(x, order));
    if !can_flush(g) {
        (with_edge_set(x, order, skeletal(order, t)), g)
    } else {
        let ((q1, g1), t1, flushed) = large_flushed(g, x.query, x.can_empty, t, order);
        let (q2, g2) = if !x.can_empty && (force || (must_reduce(t1) && !flushed)) {
            and_set(g1, q1, t1, order)
        } else {
            (q1, g1)
        };
        let t2 = if must_reduce(t1) {
            pruned(order, reduced(order, t1))
        } else {
            t1
        };
        (with_edge_set(Info { query: q2, ..x }, order, t2), g2)
    }
}

/// The summary with its exact set in prefix order.
pub open spec fn exact_cleaned(x: Info) -> Info {
    match x.exact {
        Some(exact) => Info { exact: Some(cleaned(Order::Prefix, exact)), ..x },
        None => x,
    }
}

/// The summary with its sets bounded, their grams flushed into its query as
/// they outgrow the bounds.
#[verifier::opaque]
pub open spec fn simplified(g: Stage, x: Info, force: bool) -> (Info, Stage) {
    let x1 = exact_cleaned(x);
    let (x2, g2) = if exact_overflows(x1, force) {
        exact_flushed(g, x1)
    } else {
        (x1, g)
    };
    if x2.exact is None {
        let (x3, g3) = set_simplified(g2, x2, Order::Prefix, force);
        set_simplified(g3, x3, Order::Suffix, force)
    } else {
        (x2, g2)
    }
}

/// The summary with its exact set covered and demoted to stubs.
#[verifier::opaque]
pub open spec fn flush_spilled(g: Stage, x: Info) -> (Info, Stage) {
    let (y, g1) = exact_flushed(g, x);
    simplified(g1, y, false)
}

impl<'a> Analyzer<'a> {
    /// Add the grams covering `info.exact` into its match query, so they are
    /// not lost when the exact set is later discarded.
    pub fn add_exact(&mut self, info: &mut RegexpInfo)
        requires
            old(info).wf(),
        ensures
            final(info).wf(),
            (final(info)@, final(self).stage()) == exact_added(old(self).stage(), old(info)@),
    {
        if info.exact.is_some() {
            let exact = crate::query::info::duplicate_set(&info.exact);
            if let Some(exact) = exact {
                let mut q = Query::all();
                core::mem::swap(&mut q, &mut info.match_);
                info.match_ = self.and_grams(q, &exact, Order::Prefix);
            }
        }
    }

    /// Cover an exact set into its own match query, then demote it to
    /// prefix/suffix stubs.
    pub fn flush_spill(&mut self, info: &mut RegexpInfo)
        requires
            old(info).wf(),
        ensures
            final(info).wf(),
            (final(info)@, final(self).stage()) == flush_spilled(old(self).stage(), old(info)@),
    {
        proof {
            reveal(flush_spilled);
        }
        self.flush_exact(info);
        self.simplify(info, false);
    }

    /// Cover the exact set and spill it into prefix/suffix stubs.
    fn flush_exact(&mut self, info: &mut RegexpInfo)
        requires
            old(info).wf(),
        ensures
            final(info).wf(),
            (final(info)@, final(self).stage()) == exact_flushed(old(self).stage(), old(info)@),
    {
        self.add_exact(info);
        let mut exact: Option<StringSet> = None;
        core::mem::swap(&mut exact, &mut info.exact);
        if let Some(exact) = exact {
            spill_exact(info, &exact);
        }
    }

    /// Flush a non-exact branch's prefix and suffix covers into its own match
    /// query. Used before alternation unions the sets, which would otherwise
    /// let one branch's prefix satisfy another branch's suffix. A branch that
    /// can match empty demands none of its strings.
    pub fn flush_sets(&mut self, info: &mut RegexpInfo)
        requires
            old(info).wf(),
        ensures
            final(info).wf(),
            (final(info)@, final(self).stage()) == sets_flushed(old(self).stage(), old(info)@),
    {
        proof {
            reveal(sets_flushed);
        }
        if info.exact.is_some() || info.can_empty {
            return;
        }
        let mut q = Query::all();
        core::mem::swap(&mut q, &mut info.match_);
        let q = self.and_grams(q, &info.prefix, Order::Prefix);
        info.match_ = self.and_grams(q, &info.suffix, Order::Suffix);
    }

    /// Bound the exact, prefix, and suffix sets, flushing grams into the match
    /// query as they grow. `force` flushes exact strings that are long enough
    /// to be selective on their own.
    pub fn simplify(&mut self, info: &mut RegexpInfo, force: bool)
        requires
            old(info).wf(),
        ensures
            final(info).wf(),
            (final(info)@, final(self).stage()) == simplified(
                old(self).stage(),
                old(info)@,
                force,
            ),
    {
        proof {
            reveal(simplified);
        }
        let mut exact: Option<StringSet> = None;
        core::mem::swap(&mut exact, &mut info.exact);
        if let Some(mut set) = exact {
            set.clean(Order::Prefix);
            info.exact = Some(set);
        }
        assert(info@ == exact_cleaned(old(info)@));
        if should_flush_exact(info, force) {
            self.flush_exact(info);
        }
        if info.exact.is_none() {
            self.simplify_set(info, Order::Prefix, force);
            self.simplify_set(info, Order::Suffix, force);
        }
    }

    /// Bound a prefix or suffix set. The set's covers are flushed into the
    /// match query only when the set must shrink (or at `force`, the final
    /// flush): flushing every step would re-cover the same window each time a
    /// character is appended, while flushing on truncation covers each window
    /// once, exactly before the bytes that formed it are dropped.
    fn simplify_set(&mut self, info: &mut RegexpInfo, order: Order, force: bool)
        requires
            old(info).wf(),
        ensures
            final(info).wf(),
            (final(info)@, final(self).stage()) == set_simplified(
                old(self).stage(),
                old(info)@,
                order,
                force,
            ),
    {
        let mut t = take_set(info, order);
        t.clean(order);
        if !self.may_flush() {
            // spent budget: keep the sets skeletal, no flush can land
            reduce_set_skeletal(&mut t, order);
            put_set(info, order, t);
            return;
        }
        let flushed_large_set = self.flush_large_set_before_reduce(info, &mut t, order);
        let needs_reduce = t.len() > MAX_SET || t.max_len() > BOUNDARY_GROW;
        if !info.can_empty && (force || (needs_reduce && !flushed_large_set)) {
            let mut q = Query::all();
            core::mem::swap(&mut q, &mut info.match_);
            info.match_ = self.and_grams(q, &t, order);
        }
        if needs_reduce {
            reduce_set(&mut t, order);
            dedup_redundant(&mut t, order);
        }
        put_set(info, order, t);
    }

    fn flush_large_set_before_reduce(
        &mut self,
        info: &mut RegexpInfo,
        t: &mut StringSet,
        order: Order,
    ) -> (flushed: bool)
        requires
            old(info).wf(),
            old(t).wf(),
        ensures
            final(info).wf(),
            final(t).wf(),
            final(info)@ == (Info { query: final(info)@.query, ..old(info)@ }),
            ((final(info)@.query, final(self).stage()), final(t)@, flushed) == large_flushed(
                old(self).stage(),
                old(info)@.query,
                old(info)@.can_empty,
                old(t)@,
                order,
            ),
    {
        if t.len() <= MAX_FLUSH_SET {
            return false;
        }
        let left: usize = self.budget_left();
        let mut flushed = false;
        if !info.can_empty {
            if let Some(grams) = self.branch_single_covers(t, left) {
                let mut q = Query::all();
                core::mem::swap(&mut q, &mut info.match_);
                info.match_ = self.and_or_grams(q, grams);
                flushed = true;
            }
        }
        reduce_set(t, order);
        dedup_redundant(t, order);
        flushed
    }
}

/// Whether the exact set has grown large enough, or selective enough, to flush.
fn should_flush_exact(info: &RegexpInfo, force: bool) -> (flush: bool)
    ensures
        flush == exact_overflows(info@, force),
{
    match &info.exact {
        None => false,
        Some(exact) => exact.len() > MAX_EXACT || exact.byte_len() > MAX_EXACT_BYTES || (
        exact.min_len() >= QuerySettings::MIN_GRAM_LEN && force),
    }
}

/// Move each exact string into the prefix and suffix sets as a stub wide
/// enough for the next windows to overlap the flushed one.
pub fn spill_exact(info: &mut RegexpInfo, exact: &StringSet)
    requires
        old(info).wf(),
    ensures
        final(info).wf(),
        final(info)@ == spilled(old(info)@, exact@),
{
    let ghost heads = cut_all(Order::Prefix, exact@, BOUNDARY_KEEP as int);
    let ghost tails = cut_all(Order::Suffix, exact@, BOUNDARY_KEEP as int);
    let mut i: usize = 0;
    assert(info.prefix@ =~= old(info).prefix@ + heads.take(0));
    assert(info.suffix@ =~= old(info).suffix@ + tails.take(0));
    while i < exact.len()
        invariant
            i <= exact@.len(),
            heads == cut_all(Order::Prefix, exact@, BOUNDARY_KEEP as int),
            tails == cut_all(Order::Suffix, exact@, BOUNDARY_KEEP as int),
            info.wf(),
            info.prefix@ == old(info).prefix@ + heads.take(i as int),
            info.suffix@ == old(info).suffix@ + tails.take(i as int),
            info.can_empty == old(info).can_empty,
            info.exact == old(info).exact,
            info.plus_base == old(info).plus_base,
            info.match_ == old(info).match_,
        decreases exact@.len() - i,
    {
        let s = exact.at(i);
        let k: usize = if BOUNDARY_KEEP < s.len() {
            BOUNDARY_KEEP
        } else {
            s.len()
        };
        assert(s@.subrange(0, k as int) =~= heads[i as int]);
        assert(s@.subrange(s@.len() - k, s@.len() as int) =~= tails[i as int]);
        info.prefix.push(s.head(k));
        info.suffix.push(s.tail(k));
        i = i + 1;
        assert(info.prefix@ =~= old(info).prefix@ + heads.take(i as int));
        assert(info.suffix@ =~= old(info).suffix@ + tails.take(i as int));
    }
    assert(heads.take(i as int) =~= heads);
    assert(tails.take(i as int) =~= tails);
}

/// Post-budget shrink: a handful of short stubs is all the final flush and
/// the look proofs need, and small sets keep the remaining per-character
/// cross products cheap.
fn reduce_set_skeletal(t: &mut StringSet, order: Order)
    requires
        old(t).wf(),
    ensures
        final(t).wf(),
        final(t)@ == skeletal(order, old(t)@),
{
    let longest: usize = t.max_len();
    let keep: usize = if SKELETAL_KEEP < longest {
        SKELETAL_KEEP
    } else {
        longest
    };
    shrink(t, order, keep, SKELETAL_COUNT);
}

/// Cut the strings ever shorter until at most `target` are left.
fn shrink(t: &mut StringSet, order: Order, keep: usize, target: usize)
    requires
        old(t).wf(),
    ensures
        final(t).wf(),
        final(t)@ == shrunk(order, old(t)@, keep as int, target as int),
{
    let mut keep: usize = keep;
    let ghost goal = shrunk(order, t@, keep as int, target as int);
    t.truncate(order, keep);
    t.clean(order);
    while t.len() > target && keep > 1
        invariant
            t.wf(),
            goal == if t@.len() <= target || keep <= 1 {
                t@
            } else {
                shrunk(order, t@, keep - 1, target as int)
            },
        decreases keep,
    {
        keep = keep - 1;
        t.truncate(order, keep);
        t.clean(order);
    }
}

/// Shrink `t` back under its bounds: strings are truncated to
/// [`BOUNDARY_KEEP`] bytes of context, then to ever-shorter prefixes (or
/// suffixes) until an overflowing set drops to [`REGROW_TARGET`] strings,
/// de-duplicating between passes. A non-empty string is never cut to the
/// seam-severing empty string.
pub fn reduce_set(t: &mut StringSet, order: Order)
    requires
        old(t).wf(),
    ensures
        final(t).wf(),
        final(t)@ == reduced(order, old(t)@),
{
    let target: usize = if t.len() > MAX_SET {
        REGROW_TARGET
    } else {
        MAX_SET
    };
    let longest: usize = t.max_len();
    let keep: usize = if BOUNDARY_KEEP < longest {
        BOUNDARY_KEEP
    } else {
        longest
    };
    shrink(t, order, keep, target);
}

/// Shorten every string to its leading (or trailing) `keep` bytes.
pub fn truncate_to(t: &mut StringSet, order: Order, keep: usize)
    requires
        old(t).wf(),
    ensures
        final(t).wf(),
        final(t)@ == cut_all(order, old(t)@, keep as int),
{
    t.truncate(order, keep);
}

/// Whether `s` starts (or ends) with `p`, the end `order` names.
pub fn is_extension(order: Order, p: &[u8], s: &[u8]) -> (extension: bool)
    ensures
        extension == extends(order, p@, s@),
{
    if p.len() > s.len() {
        return false;
    }
    let at: usize = match order {
        Order::Prefix => 0,
        Order::Suffix => s.len() - p.len(),
    };
    let n: usize = s.len();
    let mut i: usize = 0;
    while i < p.len()
        invariant
            i <= p@.len() <= s@.len() == n,
            at == match order {
                Order::Prefix => 0,
                Order::Suffix => s@.len() - p@.len(),
            },
            forall|k: int| 0 <= k < i ==> p@[k] == s@[at + k],
        decreases p@.len() - i,
    {
        if p[i] != s[at + i] {
            assert(p@[i as int] != s@.subrange(at as int, at + p@.len())[i as int]);
            return false;
        }
        i = i + 1;
    }
    assert(p@ =~= s@.subrange(at as int, at + p@.len()));
    true
}

/// Drop strings made redundant by a shorter one already in the set: if `ab`
/// is a possible prefix, `abc` adds nothing.
pub fn dedup_redundant(t: &mut StringSet, order: Order)
    requires
        old(t).wf(),
    ensures
        final(t).wf(),
        final(t)@ == pruned(order, old(t)@),
{
    let ghost all = t@;
    let mut kept = StringSet::new();
    let mut i: usize = 0;
    assert(kept@ =~= pruned(order, all.take(0)));
    while i < t.len()
        invariant
            i <= t@.len(),
            t@ == all,
            kept.wf(),
            kept@ == pruned(order, all.take(i as int)),
        decreases t@.len() - i,
    {
        assert(all.take(i + 1).drop_last() =~= all.take(i as int));
        let n: usize = kept.len();
        let covered = n > 0 && is_extension(order, kept.at(n - 1).as_bytes(), t.at(i).as_bytes());
        if !covered {
            kept.push(t.at(i).duplicate());
        }
        i = i + 1;
    }
    assert(all.take(i as int) =~= all);
    *t = kept;
}

fn take_set(info: &mut RegexpInfo, order: Order) -> (set: StringSet)
    requires
        old(info).wf(),
    ensures
        final(info).wf(),
        set.wf(),
        set@ == edge_set(old(info)@, order),
        final(info)@ == with_edge_set(old(info)@, order, Seq::empty()),
{
    let mut set = StringSet::new();
    match order {
        Order::Prefix => core::mem::swap(&mut set, &mut info.prefix),
        Order::Suffix => core::mem::swap(&mut set, &mut info.suffix),
    }
    set
}

fn put_set(info: &mut RegexpInfo, order: Order, set: StringSet)
    requires
        old(info).wf(),
        set.wf(),
    ensures
        final(info).wf(),
        final(info)@ == with_edge_set(old(info)@, order, set@),
{
    match order {
        Order::Prefix => info.prefix = set,
        Order::Suffix => info.suffix = set,
    }
}

} // verus!
