//! Where an anchor may be given the line break it looks at.
//!
//! With sentinels around a document, every anchored match has a real or virtual
//! line break next to it, and the plan may ask for the grams that bridge the
//! two. The break must not be counted twice: not where a part of the pattern
//! next to the anchor takes it itself, nor where another anchor at the same
//! place has been given it.

use vstd::prelude::*;

use crate::query::analyze::looks::{end_terminator_strings, start_terminator_strings};
use crate::query::analyze::Sides;
use crate::query::edges::{edge_bytes, shown_bytes, Edge};
use crate::query::hir::{Assertion, Regex};
use crate::query::needs::facts::{min_match_len, shortest};

verus! {

/// An assertion of the expression takes a carriage return for a line break.
pub open spec fn sees_crlf(h: Regex) -> bool
    decreases h,
{
    match h {
        Regex::Look(look) => look == Assertion::StartCRLF || look == Assertion::EndCRLF,
        Regex::Capture(sub) => sees_crlf(*sub),
        Regex::Repetition(rep) => sees_crlf(*rep.sub),
        Regex::Concat(subs) => exists|i: int| 0 <= i < subs@.len() && sees_crlf(#[trigger] subs@[i]),
        Regex::Alternation(subs) => exists|i: int|
            0 <= i < subs@.len() && sees_crlf(#[trigger] subs@[i]),
        _ => false,
    }
}

/// The byte is a line break; a carriage return is one where `crlf` says so.
pub open spec fn is_break(crlf: bool, b: u8) -> bool {
    b == 10 || (crlf && b == 13)
}

/// The expression is an assertion with terminators before it.
pub open spec fn is_start_anchor(h: Regex) -> bool {
    h matches Regex::Look(look) && start_terminator_strings(look) is Some
}

/// The expression is an assertion with terminators behind it.
pub open spec fn is_end_anchor(h: Regex) -> bool {
    h matches Regex::Look(look) && end_terminator_strings(look) is Some
}

/// Only assertions stand among the first `n` parts.
pub open spec fn only_looks(subs: Seq<Regex>, n: int) -> bool {
    forall|j: int| 0 <= j < n ==> #[trigger] subs[j] is Look
}

/// The part at `i` is an anchor that opens its concatenation.
pub open spec fn opens_line(subs: Seq<Regex>, i: int) -> bool {
    is_start_anchor(subs[i]) && only_looks(subs, i)
}

/// The part at `i` is an anchor that closes its concatenation.
pub open spec fn closes_line(subs: Seq<Regex>, i: int) -> bool {
    i == subs.len() - 1 && is_end_anchor(subs[i])
}

/// A match of the expression, or an empty one where only those are meant, may
/// stand for a line break next to it.
pub open spec fn claims(h: Regex, empty: bool) -> bool
    decreases h,
{
    match h {
        Regex::Capture(sub) => claims(*sub, empty),
        Regex::Repetition(rep) => claims(*rep.sub, empty),
        Regex::Alternation(subs) => exists|i: int|
            0 <= i < subs@.len() && claims(#[trigger] subs@[i], empty),
        Regex::Concat(subs) => !(empty && shortest(h) > 0) && exists|i: int|
            0 <= i < subs@.len() && (claims(#[trigger] subs@[i], empty) || opens_line(subs@, i)
                || closes_line(subs@, i)),
        _ => false,
    }
}

/// The line break `byte` right behind the first `n` parts is left to what comes
/// next: they cannot end with it, and where they can be empty none of them
/// stands for it and it is left to the concatenation.
pub open spec fn free_before(subs: Seq<Regex>, e: Sides, byte: u8, n: int) -> bool
    decreases n,
{
    if n <= 0 {
        e.start
    } else {
        let sub = subs[n - 1];
        &&& !opens_line(subs, n - 1)
        &&& !shown_bytes(sub, Edge::End).0.contains(byte)
        &&& shortest(sub) > 0 || (!claims(sub, true) && free_before(subs, e, byte, n - 1))
    }
}

/// The line break `byte` right before the parts from `n` on is left to what
/// comes before them.
pub open spec fn free_after(subs: Seq<Regex>, e: Sides, byte: u8, n: int) -> bool
    decreases subs.len() - n,
{
    if n >= subs.len() {
        e.end
    } else {
        let sub = subs[n];
        &&& !closes_line(subs, n)
        &&& !shown_bytes(sub, Edge::Start).0.contains(byte)
        &&& shortest(sub) > 0 || (!claims(sub, true) && free_after(subs, e, byte, n + 1))
    }
}

/// The expression is a run of single characters, or of nothing: without the
/// line break at its edge a match of it is still one.
pub open spec fn trims(h: Regex) -> bool
    decreases h,
{
    match h {
        Regex::Capture(sub) => trims(*sub),
        Regex::Repetition(rep) => rep.min == 0 && is_single(*rep.sub),
        _ => false,
    }
}

/// Every match of the expression is one character, or one byte.
pub open spec fn is_single(h: Regex) -> bool
    decreases h,
{
    match h {
        Regex::Capture(sub) => is_single(*sub),
        Regex::Class(_) => true,
        Regex::Literal(bytes) => bytes@.len() == 1,
        _ => false,
    }
}

/// The expression matches the empty string wherever it stands.
pub open spec fn drops(h: Regex) -> bool
    decreases h,
{
    match h {
        Regex::Empty => true,
        Regex::Literal(bytes) => bytes@.len() == 0,
        Regex::Capture(sub) => drops(*sub),
        Regex::Repetition(rep) => rep.min == 0 || (drops(*rep.sub) && (rep.max matches Some(max)
            ==> rep.min <= max)),
        Regex::Concat(subs) => forall|i: int| 0 <= i < subs@.len() ==> drops(#[trigger] subs@[i]),
        Regex::Alternation(subs) => exists|i: int|
            0 <= i < subs@.len() && drops(#[trigger] subs@[i]),
        _ => false,
    }
}

/// The expression matches the empty string wherever it stands, and stands for no
/// line break then.
pub open spec fn steps_aside(h: Regex) -> bool {
    drops(h) && !claims(h, true)
}

/// The first `n` parts all step aside.
pub open spec fn dropped_before(subs: Seq<Regex>, n: int) -> bool
    decreases n,
{
    n <= 0 || (steps_aside(subs[n - 1]) && dropped_before(subs, n - 1))
}

/// The parts from `n` on all step aside.
pub open spec fn dropped_after(subs: Seq<Regex>, n: int) -> bool
    decreases subs.len() - n,
{
    n >= subs.len() || (steps_aside(subs[n]) && dropped_after(subs, n + 1))
}

/// One of the first `n` parts may stand for a line break next to it.
pub open spec fn claimed(subs: Seq<Regex>, n: int) -> bool {
    exists|j: int| 0 <= j < n && claims(#[trigger] subs[j], false)
}

/// The line break `byte` right behind the first `n` parts is left to what comes
/// next, or the part there can do without it.
pub open spec fn near_before(subs: Seq<Regex>, e: Sides, byte: u8, n: int) -> bool {
    free_before(subs, e, byte, n) || (n > 0 && trims(subs[n - 1]) && !claimed(subs, n - 1)
        && free_before(subs, e, byte, n - 1))
}

/// The line break `byte` right before the parts from `n` on is left to what
/// comes before them, or the part there can do without it.
pub open spec fn near_after(subs: Seq<Regex>, e: Sides, byte: u8, n: int) -> bool {
    free_after(subs, e, byte, n) || (n < subs.len() && trims(subs[n]) && free_after(
        subs,
        e,
        byte,
        n + 1,
    ))
}

/// The first `n` parts can all be empty.
pub open spec fn bare_before(subs: Seq<Regex>, n: int) -> bool
    decreases n,
{
    n <= 0 || (shortest(subs[n - 1]) == 0 && bare_before(subs, n - 1))
}

/// The parts from `n` on can all be empty.
pub open spec fn bare_after(subs: Seq<Regex>, n: int) -> bool
    decreases subs.len() - n,
{
    n >= subs.len() || (shortest(subs[n]) == 0 && bare_after(subs, n + 1))
}

/// The sides of the `n`-th part of a concatenation, where the index has
/// sentinels (`on`).
pub open spec fn part_sides(on: bool, subs: Seq<Regex>, e: Sides, n: int) -> Sides {
    let sub = subs[n - 1];
    let own = on && claims(sub, false);
    let head = own && e.head && dropped_before(subs, n - 1);
    let tail = own && e.tail && dropped_after(subs, n);
    Sides {
        start: own && (head || (near_before(subs, e, 10, n - 1) && (sees_crlf(sub) ==> near_before(
            subs,
            e,
            13,
            n - 1,
        )))),
        end: own && (tail || (near_after(subs, e, 10, n) && (sees_crlf(sub) ==> near_after(
            subs,
            e,
            13,
            n,
        )))),
        first: on && e.first && bare_before(subs, n - 1),
        last: on && e.last && bare_after(subs, n),
        head,
        tail,
    }
}

/// The first `n` parts may end in a carriage return that stands behind them.
pub open spec fn ends_over(on: bool, subs: Seq<Regex>, e: Sides, n: int) -> bool
    decreases n,
{
    n > 0 && ((part_sides(on, subs, e, n).end && sees_crlf(subs[n - 1])) || (shortest(subs[n - 1])
        == 0 && ends_over(on, subs, e, n - 1)))
}

/// The sides of a repeated expression: an anchor at the repetition's edge is
/// given the break there only where no other copy can end or start with it,
/// nor stand for it while it is empty.
pub open spec fn copy_sides(e: Sides, max: Option<u32>, sub: Regex) -> Sides {
    let once = max == Some(0u32) || max == Some(1u32);
    Sides {
        start: e.start && (once || !meets_break(sub, Edge::End)),
        end: e.end && (once || !meets_break(sub, Edge::Start)),
        head: e.head && once,
        tail: e.tail && once,
        ..e
    }
}

/// A copy of the expression can have a line break at the edge, or stand for one
/// while it is empty.
pub open spec fn meets_break(h: Regex, edge: Edge) -> bool {
    let set = shown_bytes(h, edge).0;
    claims(h, true) || set.contains(10) || (sees_crlf(h) && set.contains(13))
}

/// How far assertions are asked next to terminators that stand in for the bytes
/// around them.
#[derive(Debug, Clone, Copy, PartialEq, Eq, Structural)]
pub struct Relief {
    /// The bytes before may be a terminator for the text's start.
    pub start: bool,
    /// The bytes behind may be a terminator for the text's end.
    pub end: bool,
    /// The bytes before may end in a carriage return that stands behind the
    /// assertion.
    pub over: bool,
    /// The bytes behind may start with a carriage return that stands before the
    /// assertion.
    pub under: bool,
}

/// The relief for the assertions before the `n`-th part.
pub open spec fn part_relief(on: bool, subs: Seq<Regex>, e: Sides, n: int) -> Relief {
    let part = part_sides(on, subs, e, n);
    Relief {
        start: part.first,
        end: part.last && shortest(subs[n - 1]) == 0,
        over: ends_over(on, subs, e, n - 1),
        under: part.start && sees_crlf(subs[n - 1]),
    }
}

/// The relief for the assertions behind the first `n` parts, before the end of
/// the concatenation.
pub open spec fn end_relief(on: bool, subs: Seq<Regex>, e: Sides, n: int) -> Relief {
    Relief {
        start: on && e.first && bare_before(subs, n),
        end: false,
        over: ends_over(on, subs, e, n) || (e.end && subs.len() > 0 && subs.last() == Regex::Look(
            Assertion::EndCRLF,
        )),
        under: false,
    }
}

/// The assertion with the relief: a text anchor asks no more than a line anchor
/// does, and where a carriage return may stand in, each line break will do.
pub open spec fn relaxed(r: Relief, look: Assertion) -> Assertion {
    match look {
        Assertion::Start => if !r.start {
            look
        } else if r.over {
            Assertion::StartCRLF
        } else {
            Assertion::StartLF
        },
        Assertion::StartLF => if r.over {
            Assertion::StartCRLF
        } else {
            look
        },
        Assertion::End => if !r.end {
            look
        } else if r.under {
            Assertion::EndCRLF
        } else {
            Assertion::EndLF
        },
        Assertion::EndLF => if r.under {
            Assertion::EndCRLF
        } else {
            look
        },
        _ => look,
    }
}

/// All assertions with the relief.
pub open spec fn relaxed_looks(r: Relief, looks: Seq<Assertion>) -> Seq<Assertion> {
    Seq::new(looks.len(), |i: int| relaxed(r, looks[i]))
}

fn relax_one(r: Relief, look: Assertion) -> (out: Assertion)
    ensures
        out == relaxed(r, look),
{
    match look {
        Assertion::Start => if !r.start {
            look
        } else if r.over {
            Assertion::StartCRLF
        } else {
            Assertion::StartLF
        },
        Assertion::StartLF => if r.over {
            Assertion::StartCRLF
        } else {
            look
        },
        Assertion::End => if !r.end {
            look
        } else if r.under {
            Assertion::EndCRLF
        } else {
            Assertion::EndLF
        },
        Assertion::EndLF => if r.under {
            Assertion::EndCRLF
        } else {
            look
        },
        _ => look,
    }
}

/// The assertions with the relief.
pub fn relax(r: Relief, looks: &Vec<Assertion>) -> (out: Vec<Assertion>)
    ensures
        out@ == relaxed_looks(r, looks@),
{
    let mut out: Vec<Assertion> = Vec::new();
    let mut i: usize = 0;
    while i < looks.len()
        invariant
            i <= looks@.len(),
            out@.len() == i,
            forall|k: int| 0 <= k < i ==> #[trigger] out@[k] == relaxed(r, looks@[k]),
        decreases looks@.len() - i,
    {
        out.push(relax_one(r, looks[i]));
        i = i + 1;
    }
    assert(out@ =~= relaxed_looks(r, looks@));
    out
}

/// Whether an assertion of the expression takes a carriage return for a line
/// break.
pub fn has_crlf(hir: &Regex) -> (found: bool)
    ensures
        found == sees_crlf(*hir),
    decreases hir,
{
    match hir {
        Regex::Look(look) => matches!(look, Assertion::StartCRLF | Assertion::EndCRLF),
        Regex::Capture(sub) => has_crlf(sub),
        Regex::Repetition(rep) => has_crlf(&rep.sub),
        Regex::Concat(subs) => {
            let mut i: usize = 0;
            while i < subs.len()
                invariant
                    i <= subs@.len(),
                    *hir == Regex::Concat(*subs),
                    hir->Concat_0 == *subs,
                    forall|k: int| 0 <= k < i ==> !sees_crlf(#[trigger] subs@[k]),
                decreases subs@.len() - i,
            {
                if has_crlf(&subs[i]) {
                    assert(sees_crlf(subs@[i as int]));
                    return true;
                }
                i = i + 1;
            }
            false
        },
        Regex::Alternation(subs) => {
            let mut i: usize = 0;
            while i < subs.len()
                invariant
                    i <= subs@.len(),
                    *hir == Regex::Alternation(*subs),
                    hir->Alternation_0 == *subs,
                    forall|k: int| 0 <= k < i ==> !sees_crlf(#[trigger] subs@[k]),
                decreases subs@.len() - i,
            {
                if has_crlf(&subs[i]) {
                    assert(sees_crlf(subs@[i as int]));
                    return true;
                }
                i = i + 1;
            }
            false
        },
        _ => false,
    }
}

fn start_anchor(hir: &Regex) -> (anchor: bool)
    ensures
        anchor == is_start_anchor(*hir),
{
    matches!(
        hir,
        Regex::Look(Assertion::Start | Assertion::StartLF | Assertion::StartCRLF)
    )
}

fn end_anchor(hir: &Regex) -> (anchor: bool)
    ensures
        anchor == is_end_anchor(*hir),
{
    matches!(
        hir,
        Regex::Look(Assertion::End | Assertion::EndLF | Assertion::EndCRLF)
    )
}

fn is_look(hir: &Regex) -> (look: bool)
    ensures
        look == (*hir is Look),
{
    matches!(hir, Regex::Look(_))
}

/// Whether a match, or an empty one where only those are meant, may stand for a
/// line break next to it.
fn may_claim(hir: &Regex, empty: bool) -> (found: bool)
    ensures
        found == claims(*hir, empty),
    decreases hir,
{
    match hir {
        Regex::Capture(sub) => may_claim(sub, empty),
        Regex::Repetition(rep) => may_claim(&rep.sub, empty),
        Regex::Alternation(subs) => {
            let mut i: usize = 0;
            while i < subs.len()
                invariant
                    i <= subs@.len(),
                    *hir == Regex::Alternation(*subs),
                    hir->Alternation_0 == *subs,
                    forall|k: int| 0 <= k < i ==> !claims(#[trigger] subs@[k], empty),
                decreases subs@.len() - i,
            {
                if may_claim(&subs[i], empty) {
                    assert(claims(subs@[i as int], empty));
                    return true;
                }
                i = i + 1;
            }
            false
        },
        Regex::Concat(subs) => {
            if empty && min_match_len(hir) > 0 {
                return false;
            }
            let mut looks = true;
            let mut i: usize = 0;
            while i < subs.len()
                invariant
                    i <= subs@.len(),
                    *hir == Regex::Concat(*subs),
                    hir->Concat_0 == *subs,
                    !(empty && shortest(*hir) > 0),
                    looks == only_looks(subs@, i as int),
                    forall|k: int|
                        0 <= k < i ==> !claims(#[trigger] subs@[k], empty) && !opens_line(
                            subs@,
                            k,
                        ) && !closes_line(subs@, k),
                decreases subs@.len() - i,
            {
                let opens = looks && start_anchor(&subs[i]);
                let closes = i == subs.len() - 1 && end_anchor(&subs[i]);
                if opens || closes || may_claim(&subs[i], empty) {
                    assert(claims(subs@[i as int], empty) || opens_line(subs@, i as int)
                        || closes_line(subs@, i as int));
                    return true;
                }
                looks = looks && is_look(&subs[i]);
                i = i + 1;
            }
            false
        },
        _ => false,
    }
}

/// Whether the expression can show the byte at the edge.
fn can_show(hir: &Regex, edge: Edge, byte: u8) -> (found: bool)
    requires
        hir.wf(),
    ensures
        found == shown_bytes(*hir, edge).0.contains(byte),
{
    let (set, _empty) = edge_bytes(hir, edge);
    assert(set.members().contains(byte) == set.has(byte));
    set.contains(byte)
}

/// The sides of a repeated expression.
pub fn sides_of_copies(sides: Sides, max: Option<u32>, sub: &Regex) -> (out: Sides)
    requires
        sub.wf(),
    ensures
        out == copy_sides(sides, max, *sub),
{
    let once = matches!(max, Some(0) | Some(1));
    Sides {
        start: sides.start && (once || !touches_break(sub, Edge::End)),
        end: sides.end && (once || !touches_break(sub, Edge::Start)),
        first: sides.first,
        last: sides.last,
        head: sides.head && once,
        tail: sides.tail && once,
    }
}

fn touches_break(hir: &Regex, edge: Edge) -> (meets: bool)
    requires
        hir.wf(),
    ensures
        meets == meets_break(*hir, edge),
{
    may_claim(hir, true) || can_show(hir, edge, 10) || (has_crlf(hir) && can_show(hir, edge, 13))
}

/// Whether the expression matches the empty string wherever it stands.
fn can_drop(hir: &Regex) -> (drop: bool)
    ensures
        drop == drops(*hir),
    decreases hir,
{
    match hir {
        Regex::Empty => true,
        Regex::Literal(bytes) => bytes.len() == 0,
        Regex::Capture(sub) => can_drop(sub),
        Regex::Repetition(rep) => rep.min == 0 || (can_drop(&rep.sub) && match rep.max {
            Some(max) => rep.min <= max,
            None => true,
        }),
        Regex::Concat(subs) => {
            let mut i: usize = 0;
            while i < subs.len()
                invariant
                    i <= subs@.len(),
                    *hir == Regex::Concat(*subs),
                    hir->Concat_0 == *subs,
                    forall|k: int| 0 <= k < i ==> drops(#[trigger] subs@[k]),
                decreases subs@.len() - i,
            {
                if !can_drop(&subs[i]) {
                    assert(!drops(subs@[i as int]));
                    return false;
                }
                i = i + 1;
            }
            true
        },
        Regex::Alternation(subs) => {
            let mut i: usize = 0;
            while i < subs.len()
                invariant
                    i <= subs@.len(),
                    *hir == Regex::Alternation(*subs),
                    hir->Alternation_0 == *subs,
                    forall|k: int| 0 <= k < i ==> !drops(#[trigger] subs@[k]),
                decreases subs@.len() - i,
            {
                if can_drop(&subs[i]) {
                    assert(drops(subs@[i as int]));
                    return true;
                }
                i = i + 1;
            }
            false
        },
        _ => false,
    }
}

fn single(hir: &Regex) -> (one: bool)
    ensures
        one == is_single(*hir),
    decreases hir,
{
    match hir {
        Regex::Capture(sub) => single(sub),
        Regex::Class(_) => true,
        Regex::Literal(bytes) => bytes.len() == 1,
        _ => false,
    }
}

/// Whether a match without the line break at its edge is still one.
fn can_trim(hir: &Regex) -> (trim: bool)
    ensures
        trim == trims(*hir),
    decreases hir,
{
    match hir {
        Regex::Capture(sub) => can_trim(sub),
        Regex::Repetition(rep) => rep.min == 0 && single(&rep.sub),
        _ => false,
    }
}

/// The line breaks that are left over next to some parts.
#[derive(Clone, Copy)]
struct Breaks {
    /// A line feed is.
    feed: bool,
    /// A carriage return is.
    cr: bool,
}

/// The part leaves the byte to what is next to it at the edge, where it is left
/// to the part (`further`).
spec fn leaves(sub: Regex, edge: Edge, byte: u8, further: bool) -> bool {
    !shown_bytes(sub, edge).0.contains(byte) && (shortest(sub) > 0 || (!claims(sub, true)
        && further))
}

/// One step of [`free_before`] or [`free_after`]: what the part leaves over of
/// the breaks.
fn left_over(sub: &Regex, edge: Edge, further: Breaks) -> (left: Breaks)
    requires
        sub.wf(),
    ensures
        left.feed == leaves(*sub, edge, 10, further.feed),
        left.cr == leaves(*sub, edge, 13, further.cr),
{
    let (set, _empty) = edge_bytes(sub, edge);
    assert(set.members().contains(10) == set.has(10));
    assert(set.members().contains(13) == set.has(13));
    let solid = min_match_len(sub) > 0;
    let mute = !may_claim(sub, true);
    Breaks {
        feed: !set.contains(10) && (solid || (mute && further.feed)),
        cr: !set.contains(13) && (solid || (mute && further.cr)),
    }
}

/// The sides of the parts of a concatenation, where the index has sentinels.
pub fn sides_of_parts(on: bool, subs: &Vec<Regex>, e: Sides) -> (out: Vec<Sides>)
    requires
        forall|i: int| 0 <= i < subs@.len() ==> (#[trigger] subs@[i]).wf(),
    ensures
        out@.len() == subs@.len(),
        forall|i: int|
            0 <= i < subs@.len() ==> #[trigger] out@[i] == part_sides(on, subs@, e, i + 1),
{
    let mut out = sides_before(on, subs, e);
    let mut free = Breaks { feed: e.end, cr: e.end };
    let mut near = free;
    let mut bare = true;
    let mut tail = e.tail;
    let mut i: usize = subs.len();
    while i > 0
        invariant
            i <= subs@.len() == out@.len(),
            forall|k: int| 0 <= k < subs@.len() ==> (#[trigger] subs@[k]).wf(),
            on ==> free.feed == free_after(subs@, e, 10, i as int),
            on ==> free.cr == free_after(subs@, e, 13, i as int),
            on ==> near.feed == near_after(subs@, e, 10, i as int),
            on ==> near.cr == near_after(subs@, e, 13, i as int),
            on ==> bare == bare_after(subs@, i as int),
            on ==> tail == (e.tail && dropped_after(subs@, i as int)),
            forall|k: int|
                0 <= k < i ==> (#[trigger] out@[k]) == (Sides {
                    end: false,
                    last: false,
                    tail: false,
                    ..part_sides(on, subs@, e, k + 1)
                }),
            forall|k: int|
                i <= k < subs@.len() ==> #[trigger] out@[k] == part_sides(on, subs@, e, k + 1),
        decreases i,
    {
        i = i - 1;
        let ghost start = part_sides(on, subs@, e, i + 1);
        let before = out[i];
        assert(before == (Sides { end: false, last: false, tail: false, ..start }));
        if on {
            let sub = &subs[i];
            let own = may_claim(sub, false);
            let full = Sides {
                start: before.start,
                end: own && (tail || (near.feed && (!has_crlf(sub) || near.cr))),
                first: before.first,
                last: e.last && bare,
                head: before.head,
                tail: own && tail,
            };
            out.set(i, full);
            let closes = i == subs.len() - 1 && end_anchor(sub);
            let left = left_over(sub, Edge::Start, free);
            let trim = can_trim(sub);
            tail = tail && can_drop(sub) && !may_claim(sub, true);
            near = Breaks {
                feed: (!closes && left.feed) || (trim && free.feed),
                cr: (!closes && left.cr) || (trim && free.cr),
            };
            free = Breaks { feed: !closes && left.feed, cr: !closes && left.cr };
            bare = bare && min_match_len(sub) == 0;
        }
    }
    out
}

/// The sides of the parts as far as what stands before them tells.
fn sides_before(on: bool, subs: &Vec<Regex>, e: Sides) -> (out: Vec<Sides>)
    requires
        forall|i: int| 0 <= i < subs@.len() ==> (#[trigger] subs@[i]).wf(),
    ensures
        out@.len() == subs@.len(),
        forall|i: int|
            0 <= i < subs@.len() ==> (#[trigger] out@[i]) == (Sides {
                end: false,
                last: false,
                tail: false,
                ..part_sides(on, subs@, e, i + 1)
            }),
{
    let mut out: Vec<Sides> = Vec::new();
    let mut free = Breaks { feed: e.start, cr: e.start };
    let mut near = free;
    let mut taken = false;
    let mut bare = true;
    let mut head = e.head;
    let mut looks = true;
    let mut i: usize = 0;
    while i < subs.len()
        invariant
            i <= subs@.len(),
            out@.len() == i,
            forall|k: int| 0 <= k < subs@.len() ==> (#[trigger] subs@[k]).wf(),
            on ==> free.feed == free_before(subs@, e, 10, i as int),
            on ==> free.cr == free_before(subs@, e, 13, i as int),
            on ==> near.feed == near_before(subs@, e, 10, i as int),
            on ==> near.cr == near_before(subs@, e, 13, i as int),
            on ==> taken == claimed(subs@, i as int),
            on ==> bare == bare_before(subs@, i as int),
            on ==> head == (e.head && dropped_before(subs@, i as int)),
            looks == only_looks(subs@, i as int),
            forall|k: int|
                0 <= k < i ==> (#[trigger] out@[k]) == (Sides {
                    end: false,
                    last: false,
                    tail: false,
                    ..part_sides(on, subs@, e, k + 1)
                }),
        decreases subs@.len() - i,
    {
        let sub = &subs[i];
        if on {
            let own = may_claim(sub, false);
            let start = own && (head || (near.feed && (!has_crlf(sub) || near.cr)));
            let first = e.first && bare;
            let bare_head = own && head;
            out.push(Sides { start, end: false, first, last: false, head: bare_head, tail: false });
            let opens = looks && start_anchor(sub);
            let left = left_over(sub, Edge::End, free);
            let trim = !taken && can_trim(sub);
            head = head && can_drop(sub) && !may_claim(sub, true);
            near = Breaks {
                feed: (!opens && left.feed) || (trim && free.feed),
                cr: (!opens && left.cr) || (trim && free.cr),
            };
            free = Breaks { feed: !opens && left.feed, cr: !opens && left.cr };
            proof {
                assert(own ==> claims(subs@[i as int], false));
                assert forall|j: int| 0 <= j < i + 1 && claims(#[trigger] subs@[j], false) implies taken
                    || own by {
                    if j < i {
                        assert(claimed(subs@, i as int));
                    }
                }
                if taken {
                    let j = choose|j: int| 0 <= j < i && claims(#[trigger] subs@[j], false);
                    assert(claimed(subs@, i + 1));
                }
            }
            taken = taken || own;
            bare = bare && min_match_len(sub) == 0;
        } else {
            out.push(
                Sides {
                    start: false,
                    end: false,
                    first: false,
                    last: false,
                    head: false,
                    tail: false,
                },
            );
        }
        looks = looks && is_look(sub);
        i = i + 1;
    }
    out
}

} // verus!
