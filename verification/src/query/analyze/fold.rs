//! The bottom-up fold over the syntax tree.
//!
//! Each node maps to the constructor or combining rule that conservatively
//! describes it. Case-insensitivity needs no handling here: parsing expands
//! `(?i)` into character classes, so concat-of-classes reproduces the folded
//! variant sets for free.

use vstd::prelude::*;

use crate::num::mul_to_max;
use crate::query::algebra::{Query, Tree};
use crate::query::analyze::classes::{class, class_info, mixed_split, split_mixed_class};
use crate::query::analyze::looks::{
    alternatives, junctions, look_noted, looks_blocked, summary_of, summary_wf, trailing_split,
};
use crate::query::analyze::reach::{
    bare_before, copy_sides, end_relief, ends_over, has_crlf, part_relief, part_sides, relax,
    relaxed_looks, sides_of_copies, sides_of_parts, Relief,
};
use crate::query::analyze::repeat::repeated;
use crate::query::analyze::stages::kept_concat_upto;
use crate::query::analyze::{whole, Analyzer, PlanContext, Sides, Stage};
use crate::query::combine::{alternated, concatenated};
use crate::query::flush::{exact_added, sets_flushed, simplified};
use crate::query::hir::{Assertion, Regex};
use crate::query::info::{empty_string, literal, no_match, Info, RegexpInfo};
use crate::query::needs::facts::min_match_len;
use crate::query::order::{cleaned, Order};
use crate::query::strings::{fold_bytes, lowered, lowered_all, StringSet};
use crate::table::WeightTable;

verus! {

/// Concat-local alternatives preserved before merging back into one summary.
///
/// Mixed wide classes such as `[A-Za-z\p{Cyrillic}]` need their finite ASCII
/// branch kept separate from the wide Unicode branch until surrounding
/// literals have been crossed in. Otherwise the class's first-byte and
/// last-byte sets can satisfy opposite sides with different one-byte members.
/// The cap keeps repeated mixed classes from turning concat analysis into an
/// exponential expansion; overflow merges branch summaries early, which is a
/// sound precision fallback.
pub const MAX_CONCAT_ALTERNATIVES: usize = 8;

/// A literal's summary, folded when planning in the folded space.
pub open spec fn literal_folded(ctx: PlanContext, bytes: Seq<u8>) -> Info {
    if ctx.fold {
        literal(lowered(bytes))
    } else {
        literal(bytes)
    }
}

/// The folded image of a set.
pub open spec fn folded_set(set: Seq<Seq<u8>>) -> Seq<Seq<u8>> {
    cleaned(Order::Prefix, lowered_all(set))
}

/// A class's summary, folded when planning in the folded space.
pub open spec fn info_folded(ctx: PlanContext, x: Info) -> Info {
    if ctx.fold {
        Info {
            exact: match x.exact {
                Some(exact) => Some(folded_set(exact)),
                None => None,
            },
            prefix: folded_set(x.prefix),
            suffix: folded_set(x.suffix),
            ..x
        }
    } else {
        x
    }
}

/// The alternation of the summaries from `i` on, each flushed first.
pub open spec fn merged_from(g: Stage, infos: Seq<Info>, i: int) -> (Info, Stage)
    decreases infos.len() - i,
{
    if i >= infos.len() - 1 {
        sets_flushed(
            g,
            if infos.len() == 0 {
                no_match()
            } else {
                infos.last()
            },
        )
    } else {
        let (acc, g1) = merged_from(g, infos, i + 1);
        let (branch, g2) = sets_flushed(g1, infos[i]);
        alternated(g2, branch, acc)
    }
}

/// The alternation of all summaries.
pub open spec fn merged(g: Stage, infos: Seq<Info>) -> (Info, Stage) {
    merged_from(g, infos, 0)
}

/// Alternatives that have begun, and the empty string for one that has not.
pub open spec fn begun(accs: Seq<Option<Info>>) -> Seq<Info> {
    Seq::new(
        accs.len(),
        |i: int|
            match accs[i] {
                Some(x) => x,
                None => empty_string(),
            },
    )
}

/// One alternative continued by one variant, unless a pending assertion is
/// impossible between them.
pub open spec fn variant_joined(g: Stage, acc: Option<Info>, v: Info, pending: Seq<Assertion>) -> (
    Option<Info>,
    Stage,
) {
    let (blocked, left, right) = junctions(pending, 0, acc, Some(v));
    if blocked {
        (None, g)
    } else {
        match left {
            None => (right, g),
            Some(left) => {
                let (x, g1) = concatenated(g, left, right->0);
                (Some(x), g1)
            },
        }
    }
}

/// One alternative continued by each of the first `m` variants.
pub open spec fn row_joined(
    g: Stage,
    acc: Option<Info>,
    vs: Seq<Info>,
    pending: Seq<Assertion>,
    m: int,
) -> (Seq<Info>, Stage)
    decreases m,
{
    if m <= 0 {
        (Seq::empty(), g)
    } else {
        let (row, g1) = row_joined(g, acc, vs, pending, m - 1);
        let (next, g2) = variant_joined(g1, acc, vs[m - 1], pending);
        match next {
            Some(x) => (row.push(x), g2),
            None => (row, g2),
        }
    }
}

/// Each of the first `n` alternatives continued by each variant.
pub open spec fn rows_joined(
    g: Stage,
    accs: Seq<Option<Info>>,
    vs: Seq<Info>,
    pending: Seq<Assertion>,
    n: int,
) -> (Seq<Info>, Stage)
    decreases n,
{
    if n <= 0 {
        (Seq::empty(), g)
    } else {
        let (rows, g1) = rows_joined(g, accs, vs, pending, n - 1);
        let (row, g2) = row_joined(g1, accs[n - 1], vs, pending, vs.len() as int);
        (rows + row, g2)
    }
}

/// The live alternatives of a concatenation part-way through.
pub ghost struct Progress {
    /// What each alternative has matched so far; `None` before the first part.
    pub accs: Seq<Option<Info>>,
    /// Assertions since the last part.
    pub pending: Seq<Assertion>,
    /// Where the analysis stands.
    pub stage: Stage,
    /// No alternative is left.
    pub dead: bool,
}

/// The alternatives after one more part with these variants.
pub open spec fn variants_crossed(p: Progress, vs: Seq<Info>, g: Stage) -> Progress {
    let (accs, g1) = if p.accs.len() * vs.len() > MAX_CONCAT_ALTERNATIVES {
        let (m, g1) = merged(g, begun(p.accs));
        (seq![Some(m)], g1)
    } else {
        (p.accs, g)
    };
    let (infos, g2) = rows_joined(g1, accs, vs, p.pending, accs.len() as int);
    Progress {
        accs: Seq::new(infos.len(), |i: int| Some(infos[i])),
        pending: Seq::empty(),
        stage: g2,
        dead: infos.len() == 0,
    }
}

/// An alternative with a trailing anchor's terminators after it.
pub open spec fn trailing_joined(g: Stage, acc: Option<Info>, trailing: Option<Info>) -> (
    Info,
    Stage,
) {
    match (acc, trailing) {
        (Some(x), Some(term)) => concatenated(g, x, term),
        (None, Some(term)) => (term, g),
        (Some(x), None) => (x, g),
        (None, None) => (empty_string(), g),
    }
}

/// The summary of an alternative with a trailing anchor's terminators after
/// it, unless an assertion at the end is impossible.
pub open spec fn branch_finished(
    g: Stage,
    acc: Option<Info>,
    trailing: Option<Info>,
    pending: Seq<Assertion>,
) -> (Option<Info>, Stage) {
    let (x, g1) = trailing_joined(g, acc, trailing);
    let (blocked, left, right) = junctions(pending, 0, Some(x), None);
    if blocked {
        (None, g1)
    } else {
        (left, g1)
    }
}

/// The summaries of the first `n` alternatives at the end of a concatenation.
pub open spec fn branches_finished(
    g: Stage,
    accs: Seq<Option<Info>>,
    trailing: Option<Info>,
    pending: Seq<Assertion>,
    n: int,
) -> (Seq<Info>, Stage)
    decreases n,
{
    if n <= 0 {
        (Seq::empty(), g)
    } else {
        let (infos, g1) = branches_finished(g, accs, trailing, pending, n - 1);
        let (next, g2) = branch_finished(g1, accs[n - 1], trailing, pending);
        match next {
            Some(x) => (infos.push(x), g2),
            None => (infos, g2),
        }
    }
}

/// The end of a concatenation: its alternatives finished and merged.
pub open spec fn concat_finished(p: Progress, trailing: Option<Info>) -> (Info, Stage) {
    if p.dead {
        (no_match(), p.stage)
    } else {
        let (infos, g) = branches_finished(
            p.stage,
            p.accs,
            trailing,
            p.pending,
            p.accs.len() as int,
        );
        if infos.len() == 0 {
            (no_match(), g)
        } else {
            merged(g, infos)
        }
    }
}

/// The summary of a whole pattern.
pub open spec fn analyzed(g: Stage, h: Regex) -> (Info, Stage) {
    analyzed_in(g, h, whole(g.ctx))
}

/// The pending assertions with the relief.
pub open spec fn relieved(p: Progress, r: Relief) -> Progress {
    Progress { pending: relaxed_looks(r, p.pending), ..p }
}

/// The summary of an expression.
pub open spec fn analyzed_in(g: Stage, h: Regex, e: Sides) -> (Info, Stage)
    decreases h, 1int, 0int,
{
    match h {
        Regex::Empty => (empty_string(), g),
        Regex::Look(_) => (empty_string(), g),
        Regex::Capture(sub) => analyzed_in(g, *sub, e),
        Regex::Concat(subs) => {
            let (n, trailing) = trailing_split(e.end, subs@);
            let p = concat_upto(g, h, e, n);
            concat_finished(
                relieved(p, end_relief(g.ctx.line_sentinels, subs@, e, n)),
                trailing,
            )
        },
        Regex::Alternation(subs) => if subs@.len() == 0 {
            (no_match(), g)
        } else if subs@.len() == 1 {
            analyzed_in(g, subs@[0], e)
        } else {
            alternation_upto(g, h, e, subs@.len() as int)
        },
        Regex::Repetition(rep) => {
            let (base, g1) = analyzed_in(
                g,
                *rep.sub,
                copy_sides(e, rep.max, *rep.sub),
            );
            repeated(g1, base, rep.min as int, rep.max)
        },
        Regex::Literal(bytes) => simplified(g, literal_folded(g.ctx, bytes@), false),
        Regex::Class(class) => simplified(g, info_folded(g.ctx, class_info(class)), false),
    }
}

/// The summaries of a concat child that stay separate until more context is
/// known.
pub open spec fn variants_of(g: Stage, h: Regex, e: Sides) -> (Seq<Info>, Stage)
    decreases h, 2int, 0int,
{
    match h {
        Regex::Class(class) => match mixed_split(class) {
            Some((exact, wide)) => (
                seq![info_folded(g.ctx, exact), info_folded(g.ctx, wide)],
                g,
            ),
            None => {
                let (x, g1) = analyzed_in(g, h, e);
                (seq![x], g1)
            },
        },
        _ => {
            let (x, g1) = analyzed_in(g, h, e);
            (seq![x], g1)
        },
    }
}

/// The alternatives after the first `n` parts of a concatenation.
pub open spec fn concat_upto(g: Stage, h: Regex, e: Sides, n: int) -> Progress
    decreases h, 0int, n,
{
    match h {
        Regex::Concat(subs) => if n <= 0 || n > subs@.len() {
            Progress { accs: seq![None], pending: Seq::empty(), stage: g, dead: false }
        } else {
            let p = concat_upto(g, h, e, n - 1);
            if p.dead {
                p
            } else {
                match subs@[n - 1] {
                    Regex::Look(look) => {
                        let (pending, accs) = look_noted(e.start, p.pending, p.accs, look);
                        Progress { pending, accs, ..p }
                    },
                    _ => {
                        let on = g.ctx.line_sentinels;
                        let part = part_sides(on, subs@, e, n);
                        let (vs, g1) = variants_of(p.stage, subs@[n - 1], part);
                        variants_crossed(relieved(p, part_relief(on, subs@, e, n)), vs, g1)
                    },
                }
            }
        },
        _ => Progress { accs: seq![None], pending: Seq::empty(), stage: g, dead: false },
    }
}

/// The alternation of the first `n` branches, each flushed first.
pub open spec fn alternation_upto(g: Stage, h: Regex, e: Sides, n: int) -> (Info, Stage)
    decreases h, 0int, n,
{
    match h {
        Regex::Alternation(subs) => if n <= 0 || n > subs@.len() {
            (no_match(), g)
        } else if n == 1 {
            let (x, g1) = analyzed_in(g, subs@[0], e);
            sets_flushed(g1, x)
        } else {
            let (acc, g1) = alternation_upto(g, h, e, n - 1);
            let (x, g2) = analyzed_in(g1, subs@[n - 1], e);
            let (y, g3) = sets_flushed(g2, x);
            alternated(g3, acc, y)
        },
        _ => (no_match(), g),
    }
}

/// The summary after the final flush of the whole pattern's edges.
pub open spec fn finalized(g: Stage, x: Info) -> (Info, Stage) {
    let (y, g1) = simplified(Stage { finalizing: true, ..g }, x, true);
    exact_added(g1, y)
}

/// The gram query a pattern plans to.
pub open spec fn planned(table: WeightTable, ctx: PlanContext, h: Regex) -> Tree {
    let (x, g) = analyzed(Stage { table, ctx, flushed: 0, finalizing: false }, h);
    finalized(g, x).0.query
}

/// The summaries behind a list.
pub open spec fn infos_of(infos: Seq<RegexpInfo>) -> Seq<Info> {
    Seq::new(infos.len(), |i: int| infos[i]@)
}

/// Every summary is well formed.
pub open spec fn infos_wf(infos: Seq<RegexpInfo>) -> bool {
    forall|i: int| 0 <= i < infos.len() ==> (#[trigger] infos[i]).wf()
}

/// Every begun alternative is well formed.
pub open spec fn accs_wf(accs: Seq<Option<RegexpInfo>>) -> bool {
    forall|i: int| 0 <= i < accs.len() ==> summary_wf(#[trigger] accs[i])
}

/// An assertion has no terminator of its own and takes no byte.
pub proof fn lemma_look_sides(on: bool, subs: Seq<Regex>, e: Sides, i: int)
    requires
        0 <= i < subs.len(),
        subs[i] is Look,
    ensures
        bare_before(subs, i + 1) == bare_before(subs, i),
        ends_over(on, subs, e, i + 1) == ends_over(on, subs, e, i),
{
}

fn duplicate_acc(acc: &Option<RegexpInfo>) -> (copy: Option<RegexpInfo>)
    requires
        summary_wf(*acc),
    ensures
        summary_wf(copy),
        summary_of(copy) == summary_of(*acc),
{
    match acc {
        Some(info) => Some(info.duplicate()),
        None => None,
    }
}

impl<'a> Analyzer<'a> {
    /// Analyze and finalize `hir` into the internal gram query.
    pub fn plan(&mut self, hir: &Regex) -> (q: Query)
        requires
            hir.wf(),
        ensures
            q.wf(),
            ({
                let (x, g) = analyzed(old(self).stage(), *hir);
                (q.tree(), final(self).stage()) == (finalized(g, x).0.query, finalized(g, x).1)
            }),
    {
        let mut info = self.analyze(hir);
        self.finalize(&mut info);
        info.match_
    }

    fn finalize(&mut self, info: &mut RegexpInfo)
        requires
            old(info).wf(),
        ensures
            final(info).wf(),
            (final(info)@, final(self).stage()) == finalized(old(self).stage(), old(info)@),
    {
        self.begin_final_flush();
        self.simplify(info, true);
        self.add_exact(info);
    }

    /// Analyze a whole pattern, returning its conservative summary.
    pub fn analyze(&mut self, hir: &Regex) -> (info: RegexpInfo)
        requires
            hir.wf(),
        ensures
            info.wf(),
            (info@, final(self).stage()) == analyzed(old(self).stage(), *hir),
    {
        let on = self.line_sentinels();
        let sides = Sides { start: on, end: on, first: on, last: on, head: on, tail: on };
        self.analyze_in(hir, sides)
    }

    /// Analyze an expression that has the given sides in its pattern.
    fn analyze_in(&mut self, hir: &Regex, sides: Sides) -> (info: RegexpInfo)
        requires
            hir.wf(),
        ensures
            info.wf(),
            (info@, final(self).stage()) == analyzed_in(old(self).stage(), *hir, sides),
        decreases hir, 1int,
    {
        match hir {
            Regex::Empty => RegexpInfo::empty_string(),
            Regex::Look(_) => RegexpInfo::empty_string(),
            Regex::Capture(sub) => self.analyze_in(sub, sides),
            Regex::Concat(_) => self.fold_concat(hir, sides),
            Regex::Alternation(_) => self.fold_alternate(hir, sides),
            Regex::Repetition(rep) => {
                let copies = sides_of_copies(sides, rep.max, &rep.sub);
                let base = self.analyze_in(&rep.sub, copies);
                self.repetition(base, rep.min, rep.max)
            },
            Regex::Literal(bytes) => {
                let mut info = self.literal_info(bytes.as_slice());
                self.simplify(&mut info, false);
                info
            },
            Regex::Class(cls) => {
                let mut info = self.fold_info(class(cls));
                self.simplify(&mut info, false);
                info
            },
        }
    }

    /// Fold a concatenation, proving look-around assertions against their
    /// byte context. A look sandwiched between subexpressions whose adjacent
    /// bytes make it fail for every combination (like `t\bhe`, or `foo$bar`
    /// with a byte after the anchor) means the whole concatenation matches
    /// nothing.
    fn fold_concat(&mut self, hir: &Regex, sides: Sides) -> (info: RegexpInfo)
        requires
            hir.wf(),
            hir is Concat,
        ensures
            info.wf(),
            (info@, final(self).stage()) == analyzed_in(old(self).stage(), *hir, sides),
        decreases hir, 0int,
    {
        let ghost g = self.stage();
        let subs = match hir {
            Regex::Concat(subs) => subs,
            _ => return RegexpInfo::no_match(),
        };
        let mut accs: Vec<Option<RegexpInfo>> = Vec::new();
        accs.push(None);
        let mut pending: Vec<Assertion> = Vec::new();
        let (n, trailing) = self.split_trailing_anchor(sides.end, subs);
        let on = self.line_sentinels();
        let parts = sides_of_parts(on, subs, sides);
        let mut bare = true;
        let mut over = false;
        let mut i: usize = 0;
        proof {
            assert(alternatives(accs@) =~= seq![None]);
            assert(pending@ =~= Seq::<Assertion>::empty());
        }
        while i < n
            invariant
                i <= n <= subs@.len(),
                hir.wf(),
                *hir == Regex::Concat(*subs),
                accs_wf(accs@),
                concat_upto(g, *hir, sides, i as int) == (Progress {
                    accs: alternatives(accs@),
                    pending: pending@,
                    stage: self.stage(),
                    dead: false,
                }),
                summary_wf(trailing),
                (n as int, summary_of(trailing)) == trailing_split(sides.end, subs@),
                on == g.ctx.line_sentinels,
                parts@.len() == subs@.len(),
                forall|k: int|
                    0 <= k < subs@.len() ==> #[trigger] parts@[k] == part_sides(
                        on,
                        subs@,
                        sides,
                        k + 1,
                    ),
                bare == bare_before(subs@, i as int),
                over == ends_over(on, subs@, sides, i as int),
                g == old(self).stage(),
            decreases n - i,
        {
            let ghost p = concat_upto(g, *hir, sides, i as int);
            proof {
                kept_concat_upto(g, *hir, sides, i as int);
            }
            assert(subs@[i as int].wf());
            if let Regex::Look(look) = &subs[i] {
                self.note_look(sides.start, &mut pending, &mut accs, *look);
                proof {
                    lemma_look_sides(on, subs@, sides, i as int);
                }
                i = i + 1;
                continue;
            }
            let part = parts[i];
            let variants = self.analyze_variants(&subs[i], part);
            let ghost g1 = self.stage();
            let empty = min_match_len(&subs[i]) == 0;
            let crlf = has_crlf(&subs[i]);
            let relief = Relief {
                start: part.first,
                end: part.last && empty,
                over,
                under: part.start && crlf,
            };
            assert(relief == part_relief(on, subs@, sides, i + 1));
            let looks = relax(relief, &pending);
            accs = self.concat_variants(accs, &variants, &looks);
            bare = bare && empty;
            over = (part.end && crlf) || (empty && over);
            pending.clear();
            assert(pending@ =~= Seq::<Assertion>::empty());
            i = i + 1;
            if accs.len() == 0 {
                proof {
                    assert(alternatives(accs@).len() == 0);
                    assert(concat_upto(g, *hir, sides, i as int).dead);
                    lemma_dead(g, *hir, sides, i as int, n as int);
                }
                return RegexpInfo::no_match();
            }
        }
        let closed = sides.end && subs.len() > 0 && matches!(
            subs[subs.len() - 1],
            Regex::Look(Assertion::EndCRLF)
        );
        let relief = Relief {
            start: on && sides.first && bare,
            end: false,
            over: over || closed,
            under: false,
        };
        assert(relief == end_relief(on, subs@, sides, n as int));
        let looks = relax(relief, &pending);
        let infos = self.finish_concat(&accs, &trailing, &looks);
        if infos.len() == 0 {
            return RegexpInfo::no_match();
        }
        self.merge_infos(infos)
    }

    /// Analyze a concat child, optionally exposing a small set of alternatives
    /// that should stay branch-local until more surrounding context is known.
    fn analyze_variants(&mut self, hir: &Regex, sides: Sides) -> (variants: Vec<RegexpInfo>)
        requires
            hir.wf(),
        ensures
            infos_wf(variants@),
            (infos_of(variants@), final(self).stage()) == variants_of(
                old(self).stage(),
                *hir,
                sides,
            ),
        decreases hir, 2int,
    {
        let mut variants: Vec<RegexpInfo> = Vec::new();
        if let Regex::Class(cls) = hir {
            if let Some((exact, wide)) = split_mixed_class(cls) {
                let a = self.fold_info(exact);
                let b = self.fold_info(wide);
                variants.push(a);
                variants.push(b);
                assert(infos_of(variants@) =~= seq![a@, b@]);
                return variants;
            }
        }
        let info = self.analyze_in(hir, sides);
        variants.push(info);
        assert(infos_of(variants@) =~= seq![info@]);
        variants
    }

    /// Cross the live concat alternatives with a child's branch variants.
    fn concat_variants(
        &mut self,
        accs: Vec<Option<RegexpInfo>>,
        variants: &Vec<RegexpInfo>,
        pending: &Vec<Assertion>,
    ) -> (out: Vec<Option<RegexpInfo>>)
        requires
            accs_wf(accs@),
            infos_wf(variants@),
        ensures
            accs_wf(out@),
            forall|p: Progress|
                #![trigger variants_crossed(p, infos_of(variants@), old(self).stage())]
                p.accs == alternatives(accs@) && p.pending == pending@ ==> variants_crossed(
                    p,
                    infos_of(variants@),
                    old(self).stage(),
                ) == (Progress {
                    accs: alternatives(out@),
                    pending: Seq::empty(),
                    stage: final(self).stage(),
                    dead: out@.len() == 0,
                }),
    {
        let ghost vs = infos_of(variants@);
        let ghost g0 = self.stage();
        let mut live = accs;
        if mul_to_max(live.len(), variants.len()) > MAX_CONCAT_ALTERNATIVES {
            let m = self.merge_accs(live);
            live = Vec::new();
            live.push(Some(m));
            assert(alternatives(live@) =~= seq![Some(m@)]);
        }
        let ghost g1 = self.stage();
        let ghost all = alternatives(live@);
        let mut out: Vec<Option<RegexpInfo>> = Vec::new();
        let mut i: usize = 0;
        let ghost mut infos: Seq<Info> = Seq::empty();
        assert(alternatives(out@) =~= Seq::new(0, |k: int| Some(infos[k])));
        while i < live.len()
            invariant
                i <= live@.len(),
                all == alternatives(live@),
                vs == infos_of(variants@),
                accs_wf(live@),
                infos_wf(variants@),
                accs_wf(out@),
                out@.len() == infos.len(),
                forall|k: int| 0 <= k < out@.len() ==> summary_of(#[trigger] out@[k]) == Some(infos[k]),
                (infos, self.stage()) == rows_joined(g1, all, vs, pending@, i as int),
            decreases live@.len() - i,
        {
            let row = self.join_variants(&live[i], variants, pending);
            let ghost (prior, fresh) = (out@, infos_of(row@));
            let ghost before_row = infos;
            let mut row = row;
            let ghost full = row@;
            let mut tail: Vec<Option<RegexpInfo>> = Vec::new();
            while row.len() > 0
                invariant
                    infos_wf(row@),
                    accs_wf(tail@),
                    row@.len() + tail@.len() == full.len(),
                    fresh == infos_of(full),
                    forall|k: int| 0 <= k < row@.len() ==> row@[k] == full[k],
                    forall|k: int|
                        0 <= k < tail@.len() ==> summary_of(#[trigger] tail@[k]) == Some(
                            fresh[full.len() - 1 - k],
                        ),
                decreases row@.len(),
            {
                if let Some(info) = row.pop() {
                    tail.push(Some(info));
                }
            }
            while tail.len() > 0
                invariant
                    accs_wf(tail@),
                    accs_wf(out@),
                    fresh.len() == full.len(),
                    out@.len() + tail@.len() == prior.len() + fresh.len(),
                    tail@.len() <= fresh.len(),
                    prior.len() == before_row.len(),
                    forall|k: int|
                        0 <= k < tail@.len() ==> summary_of(#[trigger] tail@[k]) == Some(
                            fresh[full.len() - 1 - k],
                        ),
                    forall|k: int|
                        0 <= k < out@.len() ==> summary_of(#[trigger] out@[k]) == Some(
                            (before_row + fresh)[k],
                        ),
                decreases tail@.len(),
            {
                if let Some(info) = tail.pop() {
                    out.push(info);
                }
            }
            proof {
                infos = before_row + fresh;
            }
            i = i + 1;
        }
        proof {
            assert forall|p: Progress|
                #![trigger variants_crossed(p, infos_of(variants@), old(self).stage())]
                p.accs == alternatives(accs@) && p.pending == pending@ implies variants_crossed(
                p,
                infos_of(variants@),
                old(self).stage(),
            ) == (Progress {
                accs: alternatives(out@),
                pending: Seq::empty(),
                stage: self.stage(),
                dead: out@.len() == 0,
            }) by {
                assert(alternatives(out@) =~= Seq::new(infos.len(), |i: int| Some(infos[i])));
            }
        }
        out
    }

    fn join_variants(
        &mut self,
        acc: &Option<RegexpInfo>,
        variants: &Vec<RegexpInfo>,
        pending: &Vec<Assertion>,
    ) -> (row: Vec<RegexpInfo>)
        requires
            summary_wf(*acc),
            infos_wf(variants@),
        ensures
            infos_wf(row@),
            (infos_of(row@), final(self).stage()) == row_joined(
                old(self).stage(),
                summary_of(*acc),
                infos_of(variants@),
                pending@,
                variants@.len() as int,
            ),
    {
        let ghost g = self.stage();
        let mut row: Vec<RegexpInfo> = Vec::new();
        let mut i: usize = 0;
        assert(infos_of(row@) =~= Seq::<Info>::empty());
        while i < variants.len()
            invariant
                i <= variants@.len(),
                summary_wf(*acc),
                infos_wf(variants@),
                infos_wf(row@),
                (infos_of(row@), self.stage()) == row_joined(
                    g,
                    summary_of(*acc),
                    infos_of(variants@),
                    pending@,
                    i as int,
                ),
            decreases variants@.len() - i,
        {
            let ghost prior = infos_of(row@);
            if let Some(info) = self.join_variant(acc, &variants[i], pending) {
                row.push(info);
                assert(infos_of(row@) =~= prior.push(info@));
            }
            i = i + 1;
        }
        row
    }

    fn join_variant(
        &mut self,
        acc: &Option<RegexpInfo>,
        variant: &RegexpInfo,
        pending: &Vec<Assertion>,
    ) -> (joined: Option<RegexpInfo>)
        requires
            summary_wf(*acc),
            variant.wf(),
        ensures
            summary_wf(joined),
            (summary_of(joined), final(self).stage()) == variant_joined(
                old(self).stage(),
                summary_of(*acc),
                variant@,
                pending@,
            ),
    {
        let (blocked, left, right) = looks_blocked(
            pending,
            duplicate_acc(acc),
            Some(variant.duplicate()),
        );
        proof {
            lemma_junctions_right(pending@, 0, summary_of(*acc), Some(variant@));
        }
        if blocked {
            return None;
        }
        match (left, right) {
            (Some(prev), Some(info)) => Some(self.concat(prev, info)),
            (None, right) => right,
            (Some(prev), None) => Some(prev),
        }
    }

    fn finish_concat(
        &mut self,
        accs: &Vec<Option<RegexpInfo>>,
        trailing: &Option<RegexpInfo>,
        pending: &Vec<Assertion>,
    ) -> (infos: Vec<RegexpInfo>)
        requires
            accs_wf(accs@),
            summary_wf(*trailing),
        ensures
            infos_wf(infos@),
            (infos_of(infos@), final(self).stage()) == branches_finished(
                old(self).stage(),
                alternatives(accs@),
                summary_of(*trailing),
                pending@,
                accs@.len() as int,
            ),
    {
        let ghost g = self.stage();
        let mut infos: Vec<RegexpInfo> = Vec::new();
        let mut i: usize = 0;
        assert(infos_of(infos@) =~= Seq::<Info>::empty());
        while i < accs.len()
            invariant
                i <= accs@.len(),
                accs_wf(accs@),
                summary_wf(*trailing),
                infos_wf(infos@),
                (infos_of(infos@), self.stage()) == branches_finished(
                    g,
                    alternatives(accs@),
                    summary_of(*trailing),
                    pending@,
                    i as int,
                ),
            decreases accs@.len() - i,
        {
            let ghost prior = infos_of(infos@);
            if let Some(info) = self.finish_concat_branch(&accs[i], trailing, pending) {
                infos.push(info);
                assert(infos_of(infos@) =~= prior.push(info@));
            }
            i = i + 1;
        }
        infos
    }

    fn finish_concat_branch(
        &mut self,
        acc: &Option<RegexpInfo>,
        trailing: &Option<RegexpInfo>,
        pending: &Vec<Assertion>,
    ) -> (finished: Option<RegexpInfo>)
        requires
            summary_wf(*acc),
            summary_wf(*trailing),
        ensures
            summary_wf(finished),
            (summary_of(finished), final(self).stage()) == branch_finished(
                old(self).stage(),
                summary_of(*acc),
                summary_of(*trailing),
                pending@,
            ),
    {
        let info = match (acc, trailing) {
            (Some(prev), Some(term)) => self.concat(prev.duplicate(), term.duplicate()),
            (None, Some(term)) => term.duplicate(),
            (Some(prev), None) => prev.duplicate(),
            (None, None) => RegexpInfo::empty_string(),
        };
        let (blocked, left, _right) = looks_blocked(pending, Some(info), None);
        if blocked {
            None
        } else {
            left
        }
    }

    /// Merge partially built concat alternatives after flushing each branch's
    /// boundary state into its own query, preserving soundness while bounding
    /// the number of live branches.
    fn merge_accs(&mut self, accs: Vec<Option<RegexpInfo>>) -> (info: RegexpInfo)
        requires
            accs_wf(accs@),
        ensures
            info.wf(),
            (info@, final(self).stage()) == merged(old(self).stage(), begun(alternatives(accs@))),
    {
        let mut infos: Vec<RegexpInfo> = Vec::new();
        let mut i: usize = 0;
        while i < accs.len()
            invariant
                i <= accs@.len(),
                accs_wf(accs@),
                infos_wf(infos@),
                infos@.len() == i,
                forall|k: int|
                    0 <= k < i ==> (#[trigger] infos@[k])@ == begun(alternatives(accs@))[k],
            decreases accs@.len() - i,
        {
            match &accs[i] {
                Some(info) => infos.push(info.duplicate()),
                None => infos.push(RegexpInfo::empty_string()),
            }
            i = i + 1;
        }
        assert(infos_of(infos@) =~= begun(alternatives(accs@)));
        self.merge_infos(infos)
    }

    /// Alternation over already-built branch summaries.
    fn merge_infos(&mut self, infos: Vec<RegexpInfo>) -> (info: RegexpInfo)
        requires
            infos_wf(infos@),
        ensures
            info.wf(),
            (info@, final(self).stage()) == merged(old(self).stage(), infos_of(infos@)),
    {
        let ghost g = self.stage();
        let ghost all = infos_of(infos@);
        let mut rest = infos;
        let mut info = match rest.pop() {
            Some(info) => info,
            None => RegexpInfo::no_match(),
        };
        self.flush_sets(&mut info);
        let ghost mut i: int = if all.len() == 0 {
            0
        } else {
            all.len() - 1
        };
        while rest.len() > 0
            invariant
                infos_wf(rest@),
                info.wf(),
                all.len() > 0 ==> rest@.len() == i && 0 <= i < all.len(),
                all.len() == 0 ==> rest@.len() == 0 && i == 0,
                forall|k: int| 0 <= k < rest@.len() ==> (#[trigger] rest@[k])@ == all[k],
                (info@, self.stage()) == merged_from(g, all, i),
            decreases rest@.len(),
        {
            if let Some(branch) = rest.pop() {
                let mut branch = branch;
                proof {
                    i = i - 1;
                    assert(branch@ == all[i]);
                }
                self.flush_sets(&mut branch);
                info = self.alternate(branch, info);
            }
        }
        info
    }

    /// A literal's summary, folded when planning in the folded space.
    fn literal_info(&self, bytes: &[u8]) -> (info: RegexpInfo)
        ensures
            info.wf(),
            info@ == literal_folded(self.stage().ctx, bytes@),
    {
        if !self.folds() {
            return RegexpInfo::literal(bytes);
        }
        let folded = fold_bytes(bytes);
        RegexpInfo::literal(folded.as_slice())
    }

    /// Fold a class node's string state into the folded space.
    fn fold_info(&self, info: RegexpInfo) -> (folded: RegexpInfo)
        requires
            info.wf(),
        ensures
            folded.wf(),
            folded@ == info_folded(self.stage().ctx, info@),
    {
        let mut info = info;
        if !self.folds() {
            return info;
        }
        let mut exact: Option<StringSet> = None;
        core::mem::swap(&mut exact, &mut info.exact);
        if let Some(set) = exact {
            info.exact = Some(set.fold_ascii());
        }
        info.prefix = info.prefix.fold_ascii();
        info.suffix = info.suffix.fold_ascii();
        info
    }

    /// Left-fold an alternation over its branches.
    ///
    /// Each branch is flushed before the fold unions the prefix/suffix
    /// sets, so its constraints bind inside its own match query: without
    /// this, one branch's prefix and another branch's suffix could jointly
    /// satisfy the merged plan.
    fn fold_alternate(&mut self, hir: &Regex, sides: Sides) -> (info: RegexpInfo)
        requires
            hir.wf(),
            hir is Alternation,
        ensures
            info.wf(),
            (info@, final(self).stage()) == analyzed_in(old(self).stage(), *hir, sides),
        decreases hir, 0int,
    {
        let ghost g = self.stage();
        let subs = match hir {
            Regex::Alternation(subs) => subs,
            _ => return RegexpInfo::no_match(),
        };
        if subs.len() == 0 {
            return RegexpInfo::no_match();
        }
        assert(subs@[0].wf());
        if subs.len() == 1 {
            return self.analyze_in(&subs[0], sides);
        }
        let mut info = self.branch(&subs[0], sides);
        let mut i: usize = 1;
        while i < subs.len()
            invariant
                1 <= i <= subs@.len(),
                hir.wf(),
                *hir == Regex::Alternation(*subs),
                info.wf(),
                (info@, self.stage()) == alternation_upto(g, *hir, sides, i as int),
            decreases subs@.len() - i,
        {
            assert(subs@[i as int].wf());
            let r = self.branch(&subs[i], sides);
            info = self.alternate(info, r);
            i = i + 1;
        }
        info
    }

    /// Analyze one alternation branch, flushing its sets.
    fn branch(&mut self, hir: &Regex, sides: Sides) -> (info: RegexpInfo)
        requires
            hir.wf(),
        ensures
            info.wf(),
            (info@, final(self).stage()) == ({
                let (x, g) = analyzed_in(old(self).stage(), *hir, sides);
                sets_flushed(g, x)
            }),
        decreases hir, 2int,
    {
        let mut info = self.analyze_in(hir, sides);
        self.flush_sets(&mut info);
        info
    }
}

/// A dead concatenation stays dead.
proof fn lemma_dead(g: Stage, h: Regex, e: Sides, i: int, n: int)
    requires
        h matches Regex::Concat(subs) && 0 < i <= n <= subs@.len(),
        concat_upto(g, h, e, i).dead,
    ensures
        concat_upto(g, h, e, n) == concat_upto(g, h, e, i),
    decreases n - i,
{
    if i < n {
        lemma_dead(g, h, e, i, n - 1);
    }
}

/// A junction keeps which sides it has.
pub proof fn lemma_junctions_right(
    looks: Seq<Assertion>,
    i: int,
    left: Option<Info>,
    right: Option<Info>,
)
    ensures
        (junctions(looks, i, left, right).1 is Some) == (left is Some),
        (junctions(looks, i, left, right).2 is Some) == (right is Some),
    decreases looks.len() - i,
{
    if 0 <= i < looks.len() {
        let (blocked, left1, right1) = crate::query::analyze::looks::junction(
            looks[i],
            left,
            right,
        );
        lemma_junctions_right(looks, i + 1, left1, right1);
    }
}

} // verus!
