//! Combining rules for concatenation and alternation.
//!
//! `concat` and `alternate` join two [`RegexpInfo`]s. Literals cover to every
//! gram a scan would emit for them (the maximal set guaranteed present in any
//! containing document), and windows stay wide instead of degrading to
//! trigrams after the first flush.

use vstd::prelude::*;

use crate::num::mul_to_max;
use crate::query::algebra::{combined, leaf, Op};
use crate::query::analyze::{Analyzer, Stage, MAX_EXACT, MAX_SET};
use crate::query::covers::{and_set, lemma_cut_shrinks};
use crate::query::flush::{exact_added, flush_spilled, simplified};
use crate::query::info::{blank, Info, RegexpInfo};
use crate::query::order::{cleaned, Order};
use crate::query::settings::QuerySettings;
use crate::query::strings::{crossed, cut_all, max_len, min_len, united, StringSet};

verus! {

/// Bound on the seam cross product flushed at a concat boundary. Beyond it
/// the boundary strings are truncated back toward short stubs, trading
/// precision for a bounded plan.
pub const MAX_SEAM_CROSS: usize = 2048;

/// The strings a match starts with: the exact set, else the prefixes.
pub open spec fn heads(x: Info) -> Seq<Seq<u8>> {
    match x.exact {
        Some(exact) => exact,
        None => x.prefix,
    }
}

/// The strings a match ends with: the exact set, else the suffixes.
pub open spec fn tails(x: Info) -> Seq<Seq<u8>> {
    match x.exact {
        Some(exact) => exact,
        None => x.suffix,
    }
}

/// Possible match prefixes of `xy`, where not both sides are exact.
pub open spec fn joint_prefix(x: Info, y: Info) -> Seq<Seq<u8>> {
    match x.exact {
        Some(xe) => {
            let both = crossed(xe, heads(y), Order::Prefix);
            if y.can_empty {
                united(both, xe, Order::Prefix)
            } else {
                both
            }
        },
        None => if x.can_empty {
            united(x.prefix, heads(y), Order::Prefix)
        } else {
            x.prefix
        },
    }
}

/// Possible match suffixes of `xy`, where not both sides are exact.
pub open spec fn joint_suffix(x: Info, y: Info) -> Seq<Seq<u8>> {
    match y.exact {
        Some(ye) => {
            let both = crossed(tails(x), ye, Order::Suffix);
            if x.can_empty {
                united(both, ye, Order::Suffix)
            } else {
                both
            }
        },
        None => if y.can_empty {
            united(y.suffix, tails(x), Order::Suffix)
        } else {
            y.suffix
        },
    }
}

/// The exhaustive suffix set of `X·E+`: `(suffix(X) ∪ E) × E`.
///
/// A match is `w·e₁···eₖ` with `k ≥ 1`. Its last two blocks are a tail of `w`
/// and `e₁` when `k = 1`, or `e₍ₖ₋₁₎·eₖ`. Where the last byte of `X` is unknown
/// (no suffix at all), every match still ends with some `eₖ`. Where `X` may be
/// empty without its suffixes saying so, a match may be a single `e₁`, so `E`
/// itself joins the set.
pub open spec fn run_suffix(x: Info, e: Seq<Seq<u8>>) -> Seq<Seq<u8>> {
    let s = tails(x);
    if s.len() == 0 {
        e
    } else {
        let two = crossed(united(s, e, Order::Suffix), e, Order::Suffix);
        if x.exact is None && x.can_empty {
            united(two, e, Order::Suffix)
        } else {
            two
        }
    }
}

/// The exhaustive prefix set of `E+·Y`: `E × (E ∪ prefix(Y))`, with `E` itself
/// where `Y` may be empty without its prefixes saying so.
pub open spec fn run_prefix(y: Info, e: Seq<Seq<u8>>) -> Seq<Seq<u8>> {
    let p = heads(y);
    if p.len() == 0 {
        e
    } else {
        let two = crossed(e, united(e, p, Order::Prefix), Order::Prefix);
        if y.exact is None && y.can_empty {
            united(two, e, Order::Prefix)
        } else {
            two
        }
    }
}

/// The suffixes of `xy` where `y` is a run of `e`.
pub open spec fn hinted_suffix(x: Info, y: Info, e: Seq<Seq<u8>>) -> Seq<Seq<u8>> {
    if y.can_empty {
        united(run_suffix(x, e), tails(x), Order::Suffix)
    } else {
        run_suffix(x, e)
    }
}

/// The prefixes of `xy` where `x` is a run of `e`.
pub open spec fn hinted_prefix(x: Info, y: Info, e: Seq<Seq<u8>>) -> Seq<Seq<u8>> {
    if x.can_empty {
        united(run_prefix(y, e), heads(y), Order::Prefix)
    } else {
        run_prefix(y, e)
    }
}

/// Cut ever shorter until the set is within bounds, if one byte can be kept.
pub open spec fn side_shrunk(order: Order, edge: Seq<Seq<u8>>, keep: int) -> Option<Seq<Seq<u8>>>
    decreases keep,
{
    if keep < 1 {
        None
    } else {
        let c = cleaned(order, cut_all(order, edge, keep));
        if c.len() <= MAX_SET {
            Some(c)
        } else {
            side_shrunk(order, c, keep - 1)
        }
    }
}

/// A seam side bounded to [`MAX_SET`] strings.
pub open spec fn bounded_side(set: Seq<Seq<u8>>, order: Order) -> Option<Seq<Seq<u8>>> {
    if set.len() <= MAX_SET {
        Some(set)
    } else {
        side_shrunk(order, set, max_len(set) - 1)
    }
}

/// Truncate the larger side, one byte at a time, until the product fits.
pub open spec fn seam_shrunk(left: Seq<Seq<u8>>, right: Seq<Seq<u8>>) -> Option<
    (Seq<Seq<u8>>, Seq<Seq<u8>>),
>
    decreases max_len(left) + max_len(right),
    via seam_shrinks
{
    if left.len() * right.len() <= MAX_SEAM_CROSS {
        Some((left, right))
    } else if left.len() >= right.len() {
        if max_len(left) <= 1 {
            None
        } else {
            seam_shrunk(
                cleaned(Order::Suffix, cut_all(Order::Suffix, left, max_len(left) - 1)),
                right,
            )
        }
    } else {
        if max_len(right) <= 1 {
            None
        } else {
            seam_shrunk(
                left,
                cleaned(Order::Prefix, cut_all(Order::Prefix, right, max_len(right) - 1)),
            )
        }
    }
}

#[via_fn]
proof fn seam_shrinks(left: Seq<Seq<u8>>, right: Seq<Seq<u8>>) {
    if max_len(left) > 0 {
        lemma_cut_shrinks(Order::Suffix, left, max_len(left) - 1);
    }
    if max_len(right) > 0 {
        lemma_cut_shrinks(Order::Prefix, right, max_len(right) - 1);
    }
}

/// The strings straddling the seam of two bounded sides.
pub open spec fn sides_crossed(left: Seq<Seq<u8>>, right: Seq<Seq<u8>>) -> Option<Seq<Seq<u8>>> {
    if min_len(left) + min_len(right) < QuerySettings::MIN_GRAM_LEN {
        None
    } else {
        Some(crossed(left, right, Order::Prefix))
    }
}

/// The boundary strings straddling a concat seam, when both sides lack an
/// exact set and the strings are long enough to cover.
pub open spec fn seam_of(x: Info, y: Info) -> Option<Seq<Seq<u8>>> {
    if x.can_empty || y.can_empty || x.exact is Some || y.exact is Some {
        None
    } else {
        match (bounded_side(x.suffix, Order::Suffix), bounded_side(y.prefix, Order::Prefix)) {
            (Some(left), Some(right)) => if min_len(left) + min_len(right)
                < QuerySettings::MIN_GRAM_LEN {
                None
            } else {
                match seam_shrunk(left, right) {
                    Some((l, r)) => sides_crossed(l, r),
                    None => None,
                }
            },
            _ => None,
        }
    }
}

/// The cross product would be too large to build.
pub open spec fn too_many(a: nat, b: nat) -> bool {
    a * b > MAX_EXACT
}

/// Both operands, with an exact set flushed where the product would be too
/// large.
pub open spec fn crosses_bounded(g: Stage, x: Info, y: Info) -> (Info, Info, Stage) {
    let spill_x = match (x.exact, y.exact) {
        (Some(xe), Some(ye)) => too_many(xe.len(), ye.len()),
        (Some(xe), None) => too_many(xe.len(), y.prefix.len()),
        _ => false,
    };
    let spill_y = match (x.exact, y.exact) {
        (None, Some(ye)) => too_many(x.suffix.len(), ye.len()),
        _ => false,
    };
    if spill_x {
        let (x1, g1) = flush_spilled(g, x);
        (x1, y, g1)
    } else if spill_y {
        let (y1, g1) = flush_spilled(g, y);
        (x, y1, g1)
    } else {
        (x, y, g)
    }
}

/// The sets of `xy`, its query left open.
pub open spec fn joint_sets(x: Info, y: Info) -> Info {
    match (x.exact, y.exact) {
        (Some(xe), Some(ye)) => Info {
            can_empty: x.can_empty && y.can_empty,
            exact: Some(crossed(xe, ye, Order::Prefix)),
            ..blank()
        },
        _ => Info {
            can_empty: x.can_empty && y.can_empty,
            prefix: match x.plus_base {
                Some(e) => hinted_prefix(x, y, e),
                None => joint_prefix(x, y),
            },
            suffix: match y.plus_base {
                Some(e) => hinted_suffix(x, y, e),
                None => joint_suffix(x, y),
            },
            ..blank()
        },
    }
}

/// The summary for `xy`.
#[verifier::opaque]
pub open spec fn concatenated(g: Stage, x0: Info, y0: Info) -> (Info, Stage) {
    let (x, y, g1) = crosses_bounded(g, x0, y0);
    let q = combined(x.query, y.query, Op::And);
    let (query, g2) = match seam_of(x, y) {
        Some(boundary) => and_set(g1, q, boundary, Order::Prefix),
        None => (q, g1),
    };
    simplified(g2, Info { query, ..joint_sets(x, y) }, false)
}

/// The sets of `x|y`, its query left open.
pub open spec fn either_sets(x: Info, y: Info) -> Info {
    match (x.exact, y.exact) {
        (Some(xe), Some(ye)) => Info {
            can_empty: x.can_empty || y.can_empty,
            exact: Some(united(xe, ye, Order::Prefix)),
            ..blank()
        },
        _ => Info {
            can_empty: x.can_empty || y.can_empty,
            prefix: united(heads(x), heads(y), Order::Prefix),
            suffix: united(tails(x), tails(y), Order::Suffix),
            ..blank()
        },
    }
}

/// The summary for `x|y`.
#[verifier::opaque]
pub open spec fn alternated(g: Stage, x: Info, y: Info) -> (Info, Stage) {
    let (qx, qy, g1) = if x.exact is Some && y.exact is None {
        let (x1, g1) = exact_added(g, x);
        (x1.query, y.query, g1)
    } else if y.exact is Some && x.exact is None {
        let (y1, g1) = exact_added(g, y);
        (x.query, y1.query, g1)
    } else {
        (x.query, y.query, g)
    };
    simplified(g1, Info { query: combined(qx, qy, Op::Or), ..either_sets(x, y) }, false)
}

impl<'a> Analyzer<'a> {
    /// The summary for `xy` given the summaries of `x` and `y`. Consumes both
    /// match queries rather than cloning them.
    pub fn concat(&mut self, x: RegexpInfo, y: RegexpInfo) -> (xy: RegexpInfo)
        requires
            x.wf(),
            y.wf(),
        ensures
            xy.wf(),
            (xy@, final(self).stage()) == concatenated(old(self).stage(), x@, y@),
    {
        proof {
            reveal(concatenated);
        }
        let mut x = x;
        let mut y = y;
        self.bound_crosses(&mut x, &mut y);
        let mut xy = RegexpInfo::blank();
        // look-around satisfiability reads this flag, so set it faithfully
        xy.can_empty = x.can_empty && y.can_empty;
        let boundary = seam(&x, &y);
        match (&x.exact, &y.exact) {
            (Some(xe), Some(ye)) => {
                xy.exact = Some(xe.cross(ye, Order::Prefix));
            },
            _ => {
                xy.prefix = concat_prefix(&x, &y);
                xy.suffix = concat_suffix(&x, &y);
                apply_plus_hints(&mut xy, &x, &y);
            },
        }
        let ghost g1 = self.stage();
        assert(xy@ == (Info { query: leaf(Op::All), ..joint_sets(x@, y@) }));
        let q = x.match_.and(y.match_);
        xy.match_ = match boundary {
            Some(boundary) => self.and_grams(q, &boundary, Order::Prefix),
            None => q,
        };
        self.simplify(&mut xy, false);
        xy
    }

    /// The summary for `x|y` given the summaries of `x` and `y`.
    ///
    /// Callers folding a many-branch alternation should flush each branch
    /// with [`Self::flush_sets`] first, so every branch's constraints stay in
    /// its own match query instead of cross-mixing through the unioned
    /// prefix/suffix sets.
    pub fn alternate(&mut self, x: RegexpInfo, y: RegexpInfo) -> (xy: RegexpInfo)
        requires
            x.wf(),
            y.wf(),
        ensures
            xy.wf(),
            (xy@, final(self).stage()) == alternated(old(self).stage(), x@, y@),
    {
        proof {
            reveal(alternated);
        }
        let mut x = x;
        let mut y = y;
        let mut xy = RegexpInfo::blank();
        alternate_sets(&mut xy, &x, &y);
        if x.exact.is_some() && y.exact.is_none() {
            self.add_exact(&mut x);
        } else if y.exact.is_some() && x.exact.is_none() {
            self.add_exact(&mut y);
        }
        xy.can_empty = x.can_empty || y.can_empty;
        xy.match_ = x.match_.or(y.match_);
        self.simplify(&mut xy, false);
        xy
    }

    /// Flush and spill an exact set before a concat whose cross product
    /// would exceed the flush bound, so one wide class cannot balloon a
    /// set (and the flush that follows it) in a single step. The full
    /// windows accumulated so far are covered before any byte is dropped.
    fn bound_crosses(&mut self, x: &mut RegexpInfo, y: &mut RegexpInfo)
        requires
            old(x).wf(),
            old(y).wf(),
        ensures
            final(x).wf(),
            final(y).wf(),
            (final(x)@, final(y)@, final(self).stage()) == crosses_bounded(
                old(self).stage(),
                old(x)@,
                old(y)@,
            ),
    {
        let (spill_x, spill_y) = match (&x.exact, &y.exact) {
            (Some(xe), Some(ye)) => (over(xe.len(), ye.len()), false),
            (Some(xe), None) => (over(xe.len(), y.prefix.len()), false),
            (None, Some(ye)) => (false, over(x.suffix.len(), ye.len())),
            (None, None) => (false, false),
        };
        if spill_x {
            self.flush_spill(x);
        } else if spill_y {
            self.flush_spill(y);
        }
    }
}

/// Whether a cross product of these sizes is too large to build.
fn over(a: usize, b: usize) -> (too_large: bool)
    ensures
        too_large == too_many(a as nat, b as nat),
{
    mul_to_max(a, b) > MAX_EXACT
}

/// Fill `xy`'s exact/prefix/suffix from an alternation of `x` and `y`.
fn alternate_sets(xy: &mut RegexpInfo, x: &RegexpInfo, y: &RegexpInfo)
    requires
        x.wf(),
        y.wf(),
        old(xy).wf(),
        old(xy)@ == blank(),
    ensures
        final(xy).wf(),
        final(xy)@ == (Info { can_empty: false, ..either_sets(x@, y@) }),
{
    match (&x.exact, &y.exact) {
        (Some(xe), Some(ye)) => {
            xy.exact = Some(xe.duplicate().union(ye, Order::Prefix));
        },
        _ => {
            xy.prefix = y_prefix(x).duplicate().union(y_prefix(y), Order::Prefix);
            xy.suffix = x_suffix(x).duplicate().union(x_suffix(y), Order::Suffix);
        },
    }
}

/// Possible match prefixes of `xy`, where not both sides are exact.
fn concat_prefix(x: &RegexpInfo, y: &RegexpInfo) -> (set: StringSet)
    requires
        x.wf(),
        y.wf(),
    ensures
        set.wf(),
        set@ == joint_prefix(x@, y@),
{
    match &x.exact {
        Some(xe) => {
            let both = xe.cross(y_prefix(y), Order::Prefix);
            if y.can_empty {
                both.union(xe, Order::Prefix)
            } else {
                both
            }
        },
        None => {
            let p = x.prefix.duplicate();
            if x.can_empty {
                p.union(y_prefix(y), Order::Prefix)
            } else {
                p
            }
        },
    }
}

/// Possible match suffixes of `xy`, where not both sides are exact.
fn concat_suffix(x: &RegexpInfo, y: &RegexpInfo) -> (set: StringSet)
    requires
        x.wf(),
        y.wf(),
    ensures
        set.wf(),
        set@ == joint_suffix(x@, y@),
{
    match &y.exact {
        Some(ye) => {
            let both = x_suffix(x).cross(ye, Order::Suffix);
            if x.can_empty {
                both.union(ye, Order::Suffix)
            } else {
                both
            }
        },
        None => {
            let s = y.suffix.duplicate();
            if y.can_empty {
                s.union(x_suffix(x), Order::Suffix)
            } else {
                s
            }
        },
    }
}

fn y_prefix(y: &RegexpInfo) -> (set: &StringSet)
    requires
        y.wf(),
    ensures
        set.wf(),
        set@ == heads(y@),
{
    match &y.exact {
        Some(exact) => exact,
        None => &y.prefix,
    }
}

fn x_suffix(x: &RegexpInfo) -> (set: &StringSet)
    requires
        x.wf(),
    ensures
        set.wf(),
        set@ == tails(x@),
{
    match &x.exact {
        Some(exact) => exact,
        None => &x.suffix,
    }
}

/// Tighten the seam where a pure `E+`/`E*` run abuts its neighbour. The
/// result's own `plus_base` stays `None` (blank): the tightened window is
/// baked into `prefix`/`suffix` here, so a later concat crosses it normally.
fn apply_plus_hints(xy: &mut RegexpInfo, x: &RegexpInfo, y: &RegexpInfo)
    requires
        x.wf(),
        y.wf(),
        old(xy).wf(),
    ensures
        final(xy).wf(),
        final(xy)@ == (Info {
            prefix: match x@.plus_base {
                Some(e) => hinted_prefix(x@, y@, e),
                None => old(xy)@.prefix,
            },
            suffix: match y@.plus_base {
                Some(e) => hinted_suffix(x@, y@, e),
                None => old(xy)@.suffix,
            },
            ..old(xy)@
        }),
{
    if let Some(e) = &y.plus_base {
        xy.suffix = plus_suffix_with_empty_left(x, y, e);
    }
    if let Some(e) = &x.plus_base {
        xy.prefix = plus_prefix_with_empty_left(x, y, e);
    }
}

fn plus_suffix_with_empty_left(x: &RegexpInfo, y: &RegexpInfo, e: &StringSet) -> (set: StringSet)
    requires
        x.wf(),
        y.wf(),
        e.wf(),
    ensures
        set.wf(),
        set@ == hinted_suffix(x@, y@, e@),
{
    let suffix = plus_suffix(x, e);
    if y.can_empty {
        suffix.union(x_suffix(x), Order::Suffix)
    } else {
        suffix
    }
}

fn plus_prefix_with_empty_left(x: &RegexpInfo, y: &RegexpInfo, e: &StringSet) -> (set: StringSet)
    requires
        x.wf(),
        y.wf(),
        e.wf(),
    ensures
        set.wf(),
        set@ == hinted_prefix(x@, y@, e@),
{
    let prefix = plus_prefix(y, e);
    if x.can_empty {
        prefix.union(y_prefix(y), Order::Prefix)
    } else {
        prefix
    }
}

/// The exhaustive suffix set of `X·E+` given the left side `x` and the plus
/// base `E`; see [`run_suffix`].
fn plus_suffix(x: &RegexpInfo, e: &StringSet) -> (set: StringSet)
    requires
        x.wf(),
        e.wf(),
    ensures
        set.wf(),
        set@ == run_suffix(x@, e@),
{
    let s = x_suffix(x);
    if s.is_empty() {
        return e.duplicate();
    }
    let two = s.duplicate().union(e, Order::Suffix).cross(e, Order::Suffix);
    if x.exact.is_none() && x.can_empty {
        two.union(e, Order::Suffix)
    } else {
        two
    }
}

/// The exhaustive prefix set of `E+·Y` given the right side `y` and the plus
/// base `E`; see [`run_prefix`].
fn plus_prefix(y: &RegexpInfo, e: &StringSet) -> (set: StringSet)
    requires
        y.wf(),
        e.wf(),
    ensures
        set.wf(),
        set@ == run_prefix(y@, e@),
{
    let p = y_prefix(y);
    if p.is_empty() {
        return e.duplicate();
    }
    let more = e.duplicate().union(p, Order::Prefix);
    let two = e.cross(&more, Order::Prefix);
    if y.exact.is_none() && y.can_empty {
        two.union(e, Order::Prefix)
    } else {
        two
    }
}

/// The boundary strings straddling a concat seam, when both sides lack an
/// exact set and the strings are long enough to cover. An oversized cross
/// product is rebuilt from short stubs so the flush stays bounded.
fn seam(x: &RegexpInfo, y: &RegexpInfo) -> (boundary: Option<StringSet>)
    requires
        x.wf(),
        y.wf(),
    ensures
        match boundary {
            Some(set) => set.wf() && seam_of(x@, y@) == Some(set@),
            None => seam_of(x@, y@) is None,
        },
{
    if x.can_empty || y.can_empty {
        return None;
    }
    if x.exact.is_some() || y.exact.is_some() {
        return None;
    }
    let left = match seam_side(&x.suffix, Order::Suffix) {
        Some(left) => left,
        None => return None,
    };
    let right = match seam_side(&y.prefix, Order::Prefix) {
        Some(right) => right,
        None => return None,
    };
    if is_short(&left, &right) {
        return None;
    }
    match shrink_seam(left, right) {
        None => None,
        Some((left, right)) => {
            if is_short(&left, &right) {
                return None;
            }
            Some(left.cross(&right, Order::Prefix))
        },
    }
}

/// Whether the shortest strings of both sides do not make a gram together.
fn is_short(left: &StringSet, right: &StringSet) -> (short: bool)
    ensures
        short == (min_len(left@) + min_len(right@) < QuerySettings::MIN_GRAM_LEN),
{
    let l: usize = left.min_len();
    let r: usize = right.min_len();
    l < QuerySettings::MIN_GRAM_LEN && r < QuerySettings::MIN_GRAM_LEN - l
}

/// A seam side bounded to [`MAX_SET`] strings: an oversized side shrinks to
/// its longest edge truncation instead of dropping the whole seam.
pub fn seam_side(set: &StringSet, order: Order) -> (side: Option<StringSet>)
    requires
        set.wf(),
    ensures
        match side {
            Some(side) => side.wf() && bounded_side(set@, order) == Some(side@),
            None => bounded_side(set@, order) is None,
        },
{
    if set.len() <= MAX_SET {
        return Some(set.duplicate());
    }
    let mut edge = set.duplicate();
    let longest: usize = edge.max_len();
    if longest == 0 {
        return None;
    }
    let mut keep: usize = longest - 1;
    while keep >= 1
        invariant
            edge.wf(),
            bounded_side(set@, order) == side_shrunk(order, edge@, keep as int),
        decreases keep,
    {
        edge.truncate(order, keep);
        edge.clean(order);
        if edge.len() <= MAX_SET {
            return Some(edge);
        }
        keep = keep - 1;
    }
    None
}

/// Truncate the larger seam side, one byte at a time, until the cross product
/// fits under [`MAX_SEAM_CROSS`]. Truncation merges strings that shared the
/// dropped byte, shrinking the set.
pub fn shrink_seam(left: StringSet, right: StringSet) -> (sides: Option<(StringSet, StringSet)>)
    requires
        left.wf(),
        right.wf(),
    ensures
        match sides {
            Some((l, r)) => l.wf() && r.wf() && seam_shrunk(left@, right@) == Some((l@, r@)),
            None => seam_shrunk(left@, right@) is None,
        },
{
    let mut l = left;
    let mut r = right;
    while mul_to_max(l.len(), r.len()) > MAX_SEAM_CROSS
        invariant
            l.wf(),
            r.wf(),
            seam_shrunk(left@, right@) == seam_shrunk(l@, r@),
        decreases max_len(l@) + max_len(r@),
    {
        if l.len() >= r.len() {
            let longest: usize = l.max_len();
            if longest <= 1 {
                return None;
            }
            proof {
                lemma_cut_shrinks(Order::Suffix, l@, longest - 1);
            }
            l.truncate(Order::Suffix, longest - 1);
            l.clean(Order::Suffix);
        } else {
            let longest: usize = r.max_len();
            if longest <= 1 {
                return None;
            }
            proof {
                lemma_cut_shrinks(Order::Prefix, r@, longest - 1);
            }
            r.truncate(Order::Prefix, longest - 1);
            r.clean(Order::Prefix);
        }
    }
    Some((l, r))
}

} // verus!
