//! Whether assertions can hold in their byte context.

use vstd::prelude::*;

use crate::query::algebra::Query;
use crate::query::analyze::Analyzer;
use crate::query::combine::{heads, tails};
use crate::query::gram::Gram;
use crate::query::hir::{is_word, unicode_word, word_of, Assertion, Regex};
use crate::query::info::{blank, Info, RegexpInfo};
use crate::query::strings::{selected, StringSet};
use crate::query::utf8::{
    ends_with_scalar, first_char, first_scalar, last_char, last_scalar, starts_with_scalar,
};

verus! {

/// The adjacent byte plus any scalar-level wordness proven from a complete
/// UTF-8 character at a regex boundary.
#[derive(Debug, Clone, Copy, PartialEq, Eq, Structural)]
pub struct Boundary {
    /// The byte next to the boundary.
    pub byte: u8,
    /// Whether that byte is an ASCII word byte.
    pub ascii_word: bool,
    /// Whether the complete character there is a word character.
    pub unicode_word: Option<bool>,
}

/// Whether the scalar is a word character, when one is known.
pub open spec fn scalar_word(cp: Option<int>) -> Option<bool> {
    match cp {
        Some(cp) => word_of(cp as u32),
        None => None,
    }
}

/// The boundary a string shows at its first byte.
pub open spec fn head_boundary(s: Seq<u8>) -> Option<Boundary> {
    if s.len() == 0 {
        None
    } else {
        Some(
            Boundary {
                byte: s[0],
                ascii_word: is_word(s[0]),
                unicode_word: scalar_word(first_scalar(s)),
            },
        )
    }
}

/// The boundary a string shows at its last byte.
pub open spec fn tail_boundary(s: Seq<u8>) -> Option<Boundary> {
    if s.len() == 0 {
        None
    } else {
        Some(
            Boundary {
                byte: s.last(),
                ascii_word: is_word(s.last()),
                unicode_word: scalar_word(last_scalar(s)),
            },
        )
    }
}

/// The boundaries of all strings, or `None` when one shows none or there is
/// no string.
pub open spec fn all_boundaries(set: Seq<Seq<u8>>, at_tail: bool) -> Option<Seq<Boundary>> {
    if set.len() == 0 || exists|i: int| 0 <= i < set.len() && (#[trigger] set[i]).len() == 0 {
        None
    } else {
        Some(
            Seq::new(
                set.len(),
                |i: int|
                    if at_tail {
                        tail_boundary(set[i])->0
                    } else {
                        head_boundary(set[i])->0
                    },
            ),
        )
    }
}

/// The boundaries a match can end with, when known.
pub open spec fn ending_boundaries(x: Option<Info>) -> Option<Seq<Boundary>> {
    match x {
        Some(x) => if x.can_empty {
            None
        } else {
            all_boundaries(tails(x), true)
        },
        None => None,
    }
}

/// The boundaries a match can start with, when known.
pub open spec fn starting_boundaries(x: Option<Info>) -> Option<Seq<Boundary>> {
    match x {
        Some(x) => if x.can_empty {
            None
        } else {
            all_boundaries(heads(x), false)
        },
        None => None,
    }
}

/// The wordness an assertion reads at a boundary.
pub open spec fn wordness(look: Assertion, b: Option<Boundary>) -> Option<bool> {
    match b {
        Some(b) => if look == Assertion::WordAscii || look == Assertion::WordAsciiNegate {
            Some(b.ascii_word)
        } else {
            b.unicode_word
        },
        None => None,
    }
}

/// Whether `look` can hold between one concrete boundary pair; `None` means
/// the boundary is absent or unknown.
pub open spec fn possible(look: Assertion, l: Option<Boundary>, r: Option<Boundary>) -> bool {
    match look {
        Assertion::Start => l is None,
        Assertion::End => r is None,
        Assertion::StartLF => l matches Some(b) ==> b.byte == 10,
        Assertion::EndLF => r matches Some(b) ==> b.byte == 10,
        Assertion::StartCRLF => l matches Some(b) ==> b.byte == 10 || b.byte == 13,
        Assertion::EndCRLF => r matches Some(b) ==> b.byte == 10 || b.byte == 13,
        Assertion::WordAscii | Assertion::WordUnicode => wordness(look, l) is None || wordness(look, r)
            is None || wordness(look, l) != wordness(look, r),
        Assertion::WordAsciiNegate | Assertion::WordUnicodeNegate => wordness(look, l) is None || wordness(
            look,
            r,
        ) is None || wordness(look, l) == wordness(look, r),
        _ => true,
    }
}

/// Some left boundary lets `look` hold before `r`.
pub open spec fn possible_after(look: Assertion, ls: Seq<Boundary>, r: Option<Boundary>) -> bool {
    exists|i: int| 0 <= i < ls.len() && possible(look, Some(#[trigger] ls[i]), r)
}

/// Some right boundary lets `look` hold after `l`.
pub open spec fn possible_before(look: Assertion, l: Option<Boundary>, rs: Seq<Boundary>) -> bool {
    exists|i: int| 0 <= i < rs.len() && possible(look, l, Some(#[trigger] rs[i]))
}

/// Some pair of boundaries lets `look` hold between them.
pub open spec fn possible_between(look: Assertion, ls: Seq<Boundary>, rs: Seq<Boundary>) -> bool {
    exists|i: int| 0 <= i < rs.len() && possible_after(look, ls, Some(#[trigger] rs[i]))
}

/// Whether `look` can hold for at least one adjacent boundary pair.
pub open spec fn possible_across(
    look: Assertion,
    ls: Option<Seq<Boundary>>,
    rs: Option<Seq<Boundary>>,
) -> bool {
    match (ls, rs) {
        (None, None) => true,
        (Some(ls), None) => possible_after(look, ls, None),
        (None, Some(rs)) => possible_before(look, None, rs),
        (Some(ls), Some(rs)) => possible_between(look, ls, rs),
    }
}

/// The summary with another set of match starts.
pub open spec fn with_heads(x: Info, set: Seq<Seq<u8>>) -> Info {
    match x.exact {
        Some(_) => Info { exact: Some(set), ..x },
        None => Info { prefix: set, ..x },
    }
}

/// The summary with another set of match ends.
pub open spec fn with_tails(x: Info, set: Seq<Seq<u8>>) -> Info {
    match x.exact {
        Some(_) => Info { exact: Some(set), ..x },
        None => Info { suffix: set, ..x },
    }
}

/// The match start has no first byte, or `look` can precede it.
pub open spec fn head_survives(look: Assertion, ls: Seq<Boundary>, s: Seq<u8>) -> bool {
    s.len() == 0 || possible_after(look, ls, head_boundary(s))
}

/// The match end has no last byte, or `look` can follow it.
pub open spec fn tail_survives(look: Assertion, rs: Seq<Boundary>, s: Seq<u8>) -> bool {
    s.len() == 0 || possible_before(look, tail_boundary(s), rs)
}

/// The match starts that `look` can precede; an empty one always survives.
pub open spec fn heads_after(look: Assertion, ls: Seq<Boundary>, set: Seq<Seq<u8>>) -> Seq<Seq<u8>> {
    selected(set, Seq::new(set.len(), |i: int| head_survives(look, ls, set[i])))
}

/// The match ends that `look` can follow; an empty one always survives.
pub open spec fn tails_before(look: Assertion, rs: Seq<Boundary>, set: Seq<Seq<u8>>) -> Seq<Seq<u8>> {
    selected(set, Seq::new(set.len(), |i: int| tail_survives(look, rs, set[i])))
}

/// Every match of the summary shows a member of its sets: an empty match does
/// only where the exact set says so.
pub open spec fn shows_members(x: Info) -> bool {
    x.exact is Some || !x.can_empty
}

/// Both sides of a junction after `look` filtered them, and whether the
/// junction is seen to be impossible.
pub open spec fn junction(look: Assertion, left: Option<Info>, right: Option<Info>) -> (
    bool,
    Option<Info>,
    Option<Info>,
) {
    let ls = ending_boundaries(left);
    let rs = starting_boundaries(right);
    let filters_right = right is Some && ls is Some && heads(right->0).len() > 0;
    let right1 = if filters_right {
        Some(with_heads(right->0, heads_after(look, ls->0, heads(right->0))))
    } else {
        right
    };
    if filters_right && heads(right1->0).len() == 0 && shows_members(right->0) {
        (true, left, right1)
    } else {
        let filters_left = left is Some && rs is Some && tails(left->0).len() > 0;
        let left1 = if filters_left {
            Some(with_tails(left->0, tails_before(look, rs->0, tails(left->0))))
        } else {
            left
        };
        if filters_left && tails(left1->0).len() == 0 && shows_members(left->0) {
            (true, left1, right1)
        } else {
            (!possible_across(look, ls, rs), left1, right1)
        }
    }
}

/// The junction under all assertions from `i` on, in order, up to the first
/// that is impossible.
pub open spec fn junctions(looks: Seq<Assertion>, i: int, left: Option<Info>, right: Option<Info>) -> (
    bool,
    Option<Info>,
    Option<Info>,
)
    decreases looks.len() - i,
{
    if i < 0 || i >= looks.len() {
        (false, left, right)
    } else {
        let (blocked, left1, right1) = junction(looks[i], left, right);
        if blocked {
            (true, left1, right1)
        } else {
            junctions(looks, i + 1, left1, right1)
        }
    }
}

/// The terminator strings a start anchor guarantees on its left.
pub open spec fn start_terminator_strings(look: Assertion) -> Option<Seq<Seq<u8>>> {
    match look {
        Assertion::Start | Assertion::StartLF => Some(seq![seq![10u8]]),
        Assertion::StartCRLF => Some(seq![seq![10u8], seq![13u8]]),
        _ => None,
    }
}

/// The terminator strings an end anchor guarantees on its right.
pub open spec fn end_terminator_strings(look: Assertion) -> Option<Seq<Seq<u8>>> {
    match look {
        Assertion::End | Assertion::EndLF => Some(seq![seq![10u8]]),
        Assertion::EndCRLF => Some(seq![seq![10u8], seq![13u8]]),
        _ => None,
    }
}

/// The summary that stands in for an anchor.
pub open spec fn terminator(strings: Seq<Seq<u8>>) -> Info {
    Info { exact: Some(strings), ..blank() }
}

/// The alternatives and pending assertions after one more assertion, which
/// becomes its terminators where it opens the concatenation and the line break
/// before it is left to it (`open`).
pub open spec fn look_noted(
    open: bool,
    pending: Seq<Assertion>,
    accs: Seq<Option<Info>>,
    look: Assertion,
) -> (Seq<Assertion>, Seq<Option<Info>>) {
    if open && accs.len() == 1 && accs[0] is None && start_terminator_strings(look) is Some {
        (pending, seq![Some(terminator(start_terminator_strings(look)->0))])
    } else {
        (pending.push(look), accs)
    }
}

/// How many parts of a concatenation stand before a trailing anchor that
/// becomes its terminators, and those terminators. It does where the line break
/// behind it is left to it (`open`).
pub open spec fn trailing_split(open: bool, subs: Seq<Regex>) -> (int, Option<Info>) {
    if open && subs.len() > 0 && subs.last() is Look && end_terminator_strings(
        subs.last()->Look_0,
    ) is Some {
        (subs.len() - 1, Some(terminator(end_terminator_strings(subs.last()->Look_0)->0)))
    } else {
        (subs.len() as int, None)
    }
}

/// The model of each alternative.
pub open spec fn alternatives(accs: Seq<Option<RegexpInfo>>) -> Seq<Option<Info>> {
    Seq::new(accs.len(), |i: int| summary_of(accs[i]))
}

/// The model of an optional summary.
pub open spec fn summary_of(acc: Option<RegexpInfo>) -> Option<Info> {
    match acc {
        Some(info) => Some(info@),
        None => None,
    }
}

/// An optional summary is well formed.
pub open spec fn summary_wf(acc: Option<RegexpInfo>) -> bool {
    acc matches Some(info) ==> info.wf()
}

impl<'a> Analyzer<'a> {
    /// A start anchor that opens its concatenation becomes its terminator
    /// bytes when the index carries line sentinels: every `^foo` occurrence in
    /// the scanned stream is preceded by a real or virtual terminator, so the
    /// plan may demand the bridging grams of `\nfoo`. Anything else stays a
    /// pending look for junction pruning; so does an anchor whose terminator
    /// the pattern around it may take itself (`open` is false).
    pub fn note_look(
        &self,
        open: bool,
        pending: &mut Vec<Assertion>,
        accs: &mut Vec<Option<RegexpInfo>>,
        look: Assertion,
    )
        requires
            forall|i: int| 0 <= i < old(accs)@.len() ==> summary_wf(#[trigger] old(accs)@[i]),
        ensures
            forall|i: int| 0 <= i < final(accs)@.len() ==> summary_wf(#[trigger] final(accs)@[i]),
            (final(pending)@, alternatives(final(accs)@)) == look_noted(
                open,
                old(pending)@,
                alternatives(old(accs)@),
                look,
            ),
    {
        if open && accs.len() == 1 && accs[0].is_none() {
            if let Some(info) = start_terminators(look) {
                accs.clear();
                accs.push(Some(info));
                assert(alternatives(accs@) =~= seq![Some(info@)]);
                return;
            }
        }
        pending.push(look);
    }

    /// Split off a trailing end anchor that closes its concatenation as its
    /// terminator info under sentinels: the number of parts before it, and the
    /// info.
    pub fn split_trailing_anchor(&self, open: bool, subs: &Vec<Regex>) -> (split: (
        usize,
        Option<RegexpInfo>,
    ))
        ensures
            summary_wf(split.1),
            (split.0 as int, summary_of(split.1)) == trailing_split(open, subs@),
    {
        let n: usize = subs.len();
        if !open || n == 0 {
            return (n, None);
        }
        match &subs[n - 1] {
            Regex::Look(look) => match end_terminators(*look) {
                Some(info) => (n - 1, Some(info)),
                None => (n, None),
            },
            _ => (n, None),
        }
    }
}

/// Whether any assertion pending between `left` and `right` is provably
/// unsatisfiable. Along the way each assertion FILTERS the adjacent sets: a
/// member whose boundary byte fails the assertion against every byte of the
/// other side cannot occur in a match at this junction, so it drops out, and
/// a set filtered to nothing proves the whole concatenation empty, unless an
/// empty match may show none of the set's members. `None` on a side means the pattern edge, where any byte may precede or follow.
pub fn looks_blocked(
    pending: &Vec<Assertion>,
    left: Option<RegexpInfo>,
    right: Option<RegexpInfo>,
) -> (r: (bool, Option<RegexpInfo>, Option<RegexpInfo>))
    requires
        summary_wf(left),
        summary_wf(right),
    ensures
        summary_wf(r.1),
        summary_wf(r.2),
        (r.0, summary_of(r.1), summary_of(r.2)) == junctions(
            pending@,
            0,
            summary_of(left),
            summary_of(right),
        ),
{
    let ghost goal = junctions(pending@, 0, summary_of(left), summary_of(right));
    let mut l = left;
    let mut r = right;
    let mut i: usize = 0;
    while i < pending.len()
        invariant
            i <= pending@.len(),
            summary_wf(l),
            summary_wf(r),
            goal == junctions(pending@, i as int, summary_of(l), summary_of(r)),
            goal == junctions(pending@, 0, summary_of(left), summary_of(right)),
        decreases pending@.len() - i,
    {
        let look = pending[i];
        let left_chars = last_boundaries(&l);
        let right_chars = first_boundaries(&r);
        let (emptied, l1, r1) = junction_filters_empty(look, l, r, &left_chars, &right_chars);
        if emptied || !cross_possible(look, &left_chars, &right_chars) {
            return (true, l1, r1);
        }
        l = l1;
        r = r1;
        i = i + 1;
    }
    (false, l, r)
}

/// The boundaries behind an optional list.
pub open spec fn listed(chars: Option<Vec<Boundary>>) -> Option<Seq<Boundary>> {
    match chars {
        Some(chars) => Some(chars@),
        None => None,
    }
}

/// Filter both junction sides against `look`; true when a known set empties.
fn junction_filters_empty(
    look: Assertion,
    left: Option<RegexpInfo>,
    right: Option<RegexpInfo>,
    left_chars: &Option<Vec<Boundary>>,
    right_chars: &Option<Vec<Boundary>>,
) -> (r: (bool, Option<RegexpInfo>, Option<RegexpInfo>))
    requires
        summary_wf(left),
        summary_wf(right),
        listed(*left_chars) == ending_boundaries(summary_of(left)),
        listed(*right_chars) == starting_boundaries(summary_of(right)),
    ensures
        summary_wf(r.1),
        summary_wf(r.2),
        ({
            let (blocked, left1, right1) = junction(look, summary_of(left), summary_of(right));
            summary_of(r.1) == left1 && summary_of(r.2) == right1 && blocked == (r.0
                || !possible_across(look, listed(*left_chars), listed(*right_chars)))
        }),
{
    let mut left = left;
    let mut right = right;
    if let Some(ls) = left_chars {
        if let Some(mut info) = right {
            let emptied = filter_first_members(&mut info, look, ls);
            right = Some(info);
            if emptied {
                return (true, left, right);
            }
        } else {
            right = None;
        }
    }
    if let Some(rs) = right_chars {
        if let Some(mut info) = left {
            let emptied = filter_last_members(&mut info, look, rs);
            left = Some(info);
            if emptied {
                return (true, left, right);
            }
        } else {
            left = None;
        }
    }
    (false, left, right)
}

/// The info standing for the terminator bytes a start anchor guarantees on
/// its left, under sentinels.
fn start_terminators(look: Assertion) -> (info: Option<RegexpInfo>)
    ensures
        summary_wf(info),
        summary_of(info) == match start_terminator_strings(look) {
            Some(strings) => Some(terminator(strings)),
            None => None,
        },
{
    match look {
        Assertion::Start | Assertion::StartLF => Some(terminator_info(false)),
        Assertion::StartCRLF => Some(terminator_info(true)),
        _ => None,
    }
}

/// The info standing for the terminator bytes an end anchor guarantees on its
/// right, under sentinels.
fn end_terminators(look: Assertion) -> (info: Option<RegexpInfo>)
    ensures
        summary_wf(info),
        summary_of(info) == match end_terminator_strings(look) {
            Some(strings) => Some(terminator(strings)),
            None => None,
        },
{
    match look {
        Assertion::End | Assertion::EndLF => Some(terminator_info(false)),
        Assertion::EndCRLF => Some(terminator_info(true)),
        _ => None,
    }
}

/// An exact one-byte-per-terminator string set standing in for an anchor.
fn terminator_info(crlf: bool) -> (info: RegexpInfo)
    ensures
        info.wf(),
        info@ == terminator(
            if crlf {
                seq![seq![10u8], seq![13u8]]
            } else {
                seq![seq![10u8]]
            },
        ),
{
    let mut set = StringSet::new();
    let newline: [u8; 1] = [10];
    let carriage: [u8; 1] = [13];
    assert(newline@ =~= seq![10u8]);
    assert(carriage@ =~= seq![13u8]);
    set.push(Gram::from(&newline));
    if crlf {
        set.push(Gram::from(&carriage));
        assert(set@ =~= seq![seq![10u8], seq![13u8]]);
    } else {
        assert(set@ =~= seq![seq![10u8]]);
    }
    RegexpInfo {
        can_empty: false,
        exact: Some(set),
        prefix: StringSet::new(),
        suffix: StringSet::new(),
        plus_base: None,
        match_: Query::all(),
    }
}

/// Whether `look` can hold after one of the left boundaries.
fn any_left(look: Assertion, ls: &Vec<Boundary>, r: Option<Boundary>) -> (any: bool)
    ensures
        any == possible_after(look, ls@, r),
{
    let mut i: usize = 0;
    while i < ls.len()
        invariant
            i <= ls@.len(),
            forall|k: int| 0 <= k < i ==> !possible(look, Some(#[trigger] ls@[k]), r),
        decreases ls@.len() - i,
    {
        if look_possible(look, Some(ls[i]), r) {
            return true;
        }
        i = i + 1;
    }
    false
}

/// Whether `look` can hold before one of the right boundaries.
fn any_right(look: Assertion, l: Option<Boundary>, rs: &Vec<Boundary>) -> (any: bool)
    ensures
        any == possible_before(look, l, rs@),
{
    let mut i: usize = 0;
    while i < rs.len()
        invariant
            i <= rs@.len(),
            forall|k: int| 0 <= k < i ==> !possible(look, l, Some(#[trigger] rs@[k])),
        decreases rs@.len() - i,
    {
        if look_possible(look, l, Some(rs[i])) {
            return true;
        }
        i = i + 1;
    }
    false
}

/// Whether `look` can hold for at least one adjacent boundary pair; a `None`
/// side stands for unknown context (or the haystack edge).
fn cross_possible(
    look: Assertion,
    left: &Option<Vec<Boundary>>,
    right: &Option<Vec<Boundary>>,
) -> (any: bool)
    ensures
        any == possible_across(look, listed(*left), listed(*right)),
{
    match (left, right) {
        (None, None) => true,
        (Some(ls), None) => any_left(look, ls, None),
        (None, Some(rs)) => any_right(look, None, rs),
        (Some(ls), Some(rs)) => any_pair(look, ls, rs),
    }
}

/// Whether `look` can hold between one of the left and one of the right
/// boundaries.
fn any_pair(look: Assertion, ls: &Vec<Boundary>, rs: &Vec<Boundary>) -> (any: bool)
    ensures
        any == possible_between(look, ls@, rs@),
{
    let mut i: usize = 0;
    while i < rs.len()
        invariant
            i <= rs@.len(),
            forall|k: int| 0 <= k < i ==> !possible_after(look, ls@, Some(#[trigger] rs@[k])),
        decreases rs@.len() - i,
    {
        if any_left(look, ls, Some(rs[i])) {
            assert(possible_after(look, ls@, Some(rs@[i as int])));
            return true;
        }
        i = i + 1;
    }
    false
}

/// Drop `info`'s exact/prefix members whose FIRST byte cannot follow `look`
/// after any of the left boundaries; returns true when a known non-empty set
/// filtered to nothing (no match can pass the junction). Empty-string members
/// have no first byte at this junction and always survive.
fn filter_first_members(info: &mut RegexpInfo, look: Assertion, ls: &Vec<Boundary>) -> (emptied: bool)
    requires
        old(info).wf(),
    ensures
        final(info).wf(),
        ({
            let set = heads(old(info)@);
            let kept = heads_after(look, ls@, set);
            if set.len() == 0 {
                !emptied && final(info)@ == old(info)@
            } else {
                emptied == (kept.len() == 0 && shows_members(old(info)@)) && final(info)@
                    == with_heads(old(info)@, kept)
            }
        }),
{
    let mut exact: Option<StringSet> = None;
    core::mem::swap(&mut exact, &mut info.exact);
    if let Some(mut set) = exact {
        let emptied = keep_heads(&mut set, look, ls);
        info.exact = Some(set);
        emptied
    } else {
        let mut set = StringSet::new();
        core::mem::swap(&mut set, &mut info.prefix);
        let emptied = keep_heads(&mut set, look, ls);
        info.prefix = set;
        emptied && !info.can_empty
    }
}

/// Keep the strings that can follow `look`.
fn keep_heads(set: &mut StringSet, look: Assertion, ls: &Vec<Boundary>) -> (emptied: bool)
    requires
        old(set).wf(),
    ensures
        final(set).wf(),
        if old(set)@.len() == 0 {
            !emptied && final(set)@ == old(set)@
        } else {
            final(set)@ == heads_after(look, ls@, old(set)@) && emptied == (final(set)@.len() == 0)
        },
{
    if set.is_empty() {
        return false;
    }
    let mut keep: Vec<bool> = Vec::new();
    let mut i: usize = 0;
    while i < set.len()
        invariant
            i <= set@.len(),
            keep@.len() == i,
            forall|k: int|
                0 <= k < i ==> (#[trigger] keep@[k]) == head_survives(look, ls@, set@[k]),
        decreases set@.len() - i,
    {
        let member = set.at(i);
        keep.push(member.is_empty() || any_left(look, ls, first_boundary(member.as_bytes())));
        i = i + 1;
    }
    assert(keep@ =~= Seq::new(set@.len(), |i: int| head_survives(look, ls@, set@[i])));
    set.select(&keep);
    set.is_empty()
}

/// Symmetric to [`filter_first_members`] for exact/suffix LAST bytes.
fn filter_last_members(info: &mut RegexpInfo, look: Assertion, rs: &Vec<Boundary>) -> (emptied: bool)
    requires
        old(info).wf(),
    ensures
        final(info).wf(),
        ({
            let set = tails(old(info)@);
            let kept = tails_before(look, rs@, set);
            if set.len() == 0 {
                !emptied && final(info)@ == old(info)@
            } else {
                emptied == (kept.len() == 0 && shows_members(old(info)@)) && final(info)@
                    == with_tails(old(info)@, kept)
            }
        }),
{
    let mut exact: Option<StringSet> = None;
    core::mem::swap(&mut exact, &mut info.exact);
    if let Some(mut set) = exact {
        let emptied = keep_tails(&mut set, look, rs);
        info.exact = Some(set);
        emptied
    } else {
        let mut set = StringSet::new();
        core::mem::swap(&mut set, &mut info.suffix);
        let emptied = keep_tails(&mut set, look, rs);
        info.suffix = set;
        emptied && !info.can_empty
    }
}

/// Keep the strings that can precede `look`.
fn keep_tails(set: &mut StringSet, look: Assertion, rs: &Vec<Boundary>) -> (emptied: bool)
    requires
        old(set).wf(),
    ensures
        final(set).wf(),
        if old(set)@.len() == 0 {
            !emptied && final(set)@ == old(set)@
        } else {
            final(set)@ == tails_before(look, rs@, old(set)@) && emptied == (final(set)@.len() == 0)
        },
{
    if set.is_empty() {
        return false;
    }
    let mut keep: Vec<bool> = Vec::new();
    let mut i: usize = 0;
    while i < set.len()
        invariant
            i <= set@.len(),
            keep@.len() == i,
            forall|k: int|
                0 <= k < i ==> (#[trigger] keep@[k]) == tail_survives(look, rs@, set@[k]),
        decreases set@.len() - i,
    {
        let member = set.at(i);
        keep.push(member.is_empty() || any_right(look, last_boundary(member.as_bytes()), rs));
        i = i + 1;
    }
    assert(keep@ =~= Seq::new(set@.len(), |i: int| tail_survives(look, rs@, set@[i])));
    set.select(&keep);
    set.is_empty()
}

/// The complete set of boundary characters a match of `info` can end with,
/// or `None` when unknown. The suffix (or exact) set holds a string every
/// match ends with, so the members' last characters are exhaustive; an
/// empty-able match has no final character to speak of.
fn last_boundaries(info: &Option<RegexpInfo>) -> (chars: Option<Vec<Boundary>>)
    ensures
        listed(chars) == ending_boundaries(summary_of(*info)),
{
    match info {
        None => None,
        Some(info) => {
            if info.can_empty {
                return None;
            }
            match &info.exact {
                Some(exact) => boundaries(exact, true),
                None => boundaries(&info.suffix, true),
            }
        },
    }
}

/// The complete set of boundary characters a match of `info` can start with;
/// see [`last_boundaries`].
fn first_boundaries(info: &Option<RegexpInfo>) -> (chars: Option<Vec<Boundary>>)
    ensures
        listed(chars) == starting_boundaries(summary_of(*info)),
{
    match info {
        None => None,
        Some(info) => {
            if info.can_empty {
                return None;
            }
            match &info.exact {
                Some(exact) => boundaries(exact, false),
                None => boundaries(&info.prefix, false),
            }
        },
    }
}

fn boundaries(set: &StringSet, at_tail: bool) -> (chars: Option<Vec<Boundary>>)
    ensures
        listed(chars) == all_boundaries(set@, at_tail),
{
    let mut out: Vec<Boundary> = Vec::new();
    let mut i: usize = 0;
    while i < set.len()
        invariant
            i <= set@.len(),
            out@.len() == i,
            forall|k: int| 0 <= k < i ==> (#[trigger] set@[k]).len() > 0,
            forall|k: int|
                0 <= k < i ==> Some(#[trigger] out@[k]) == if at_tail {
                    tail_boundary(set@[k])
                } else {
                    head_boundary(set@[k])
                },
        decreases set@.len() - i,
    {
        let s = set.at(i).as_bytes();
        let boundary = if at_tail {
            last_boundary(s)
        } else {
            first_boundary(s)
        };
        match boundary {
            Some(b) => out.push(b),
            None => {
                assert(set@[i as int].len() == 0);
                return None;
            },
        }
        i = i + 1;
    }
    if out.len() == 0 {
        return None;
    }
    assert(out@ =~= all_boundaries(set@, at_tail)->0);
    Some(out)
}

/// Whether a byte is an ASCII word byte.
pub fn is_word_byte(b: u8) -> (word: bool)
    ensures
        word == is_word(b),
{
    (0x30 <= b && b <= 0x39) || (0x41 <= b && b <= 0x5A) || (0x61 <= b && b <= 0x7A) || b == 0x5F
}

/// The boundary a string shows at its first byte.
pub fn first_boundary(bytes: &[u8]) -> (b: Option<Boundary>)
    ensures
        b == head_boundary(bytes@),
{
    if bytes.len() == 0 {
        return None;
    }
    let byte: u8 = bytes[0];
    Some(
        Boundary {
            byte,
            ascii_word: is_word_byte(byte),
            unicode_word: match first_char(bytes) {
                Some(cp) => {
                    assert(starts_with_scalar(bytes@, cp as int));
                    unicode_word(cp)
                },
                None => None,
            },
        },
    )
}

/// The boundary a string shows at its last byte.
pub fn last_boundary(bytes: &[u8]) -> (b: Option<Boundary>)
    ensures
        b == tail_boundary(bytes@),
{
    if bytes.len() == 0 {
        return None;
    }
    let byte: u8 = bytes[bytes.len() - 1];
    Some(
        Boundary {
            byte,
            ascii_word: is_word_byte(byte),
            unicode_word: match last_char(bytes) {
                Some(cp) => {
                    assert(ends_with_scalar(bytes@, cp as int));
                    unicode_word(cp)
                },
                None => None,
            },
        },
    )
}

/// Whether `look` can hold between one concrete boundary pair. `None` means
/// the boundary is absent or unknown; unknown keeps the assertion possible.
/// Sound to over-report: a spurious `true` only costs candidates.
pub fn look_possible(look: Assertion, left: Option<Boundary>, right: Option<Boundary>) -> (p: bool)
    ensures
        p == possible(look, left, right),
{
    match look {
        // text anchors: no byte may sit on the anchored side
        Assertion::Start => left.is_none(),
        Assertion::End => right.is_none(),
        // line anchors: the adjacent byte, if any, must be a terminator
        Assertion::StartLF => match left {
            None => true,
            Some(b) => b.byte == 10,
        },
        Assertion::EndLF => match right {
            None => true,
            Some(b) => b.byte == 10,
        },
        Assertion::StartCRLF => match left {
            None => true,
            Some(b) => b.byte == 10 || b.byte == 13,
        },
        Assertion::EndCRLF => match right {
            None => true,
            Some(b) => b.byte == 10 || b.byte == 13,
        },
        Assertion::WordAscii
        | Assertion::WordAsciiNegate
        | Assertion::WordUnicode
        | Assertion::WordUnicodeNegate => word_look_possible(look, left, right),
        _ => true,
    }
}

/// Word boundaries hold when wordness differs, negations when it agrees.
///
/// Unicode wordness is used only when a complete adjacent scalar is known;
/// invalid or truncated UTF-8 stays unknown.
fn word_look_possible(look: Assertion, left: Option<Boundary>, right: Option<Boundary>) -> (p: bool)
    requires
        look == Assertion::WordAscii || look == Assertion::WordAsciiNegate || look == Assertion::WordUnicode
            || look == Assertion::WordUnicodeNegate,
    ensures
        p == possible(look, left, right),
{
    let (l, r) = if look == Assertion::WordAscii || look == Assertion::WordAsciiNegate {
        (ascii_word_of(left), ascii_word_of(right))
    } else {
        (unicode_word_of(left), unicode_word_of(right))
    };
    match (l, r) {
        (Some(l), Some(r)) => {
            if look == Assertion::WordAscii || look == Assertion::WordUnicode {
                l != r
            } else {
                l == r
            }
        },
        _ => true,
    }
}

fn ascii_word_of(boundary: Option<Boundary>) -> (word: Option<bool>)
    ensures
        word == match boundary {
            Some(b) => Some(b.ascii_word),
            None => None,
        },
{
    match boundary {
        Some(b) => Some(b.ascii_word),
        None => None,
    }
}

fn unicode_word_of(boundary: Option<Boundary>) -> (word: Option<bool>)
    ensures
        word == match boundary {
            Some(b) => b.unicode_word,
            None => None,
        },
{
    match boundary {
        Some(b) => b.unicode_word,
        None => None,
    }
}

} // verus!
