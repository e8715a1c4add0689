//! Root scan-need derivation from a regex tree.

pub mod anchored;
pub mod classes;
pub mod facts;
pub mod parts;

use vstd::prelude::*;

use crate::bytes::{ByteSet256, EdgeBytes};
use crate::query::edges::{
    doc_edge_literal, doc_literal, line_anchor_bytes, line_bytes, members_of, Edge,
};
use crate::num::{clamp_u32, clamp_u64};
use crate::query::flush::extends;
use crate::query::hir::Regex;
use crate::query::order::Order;
use crate::query::plan::{need_met, ScanNeed, ScanSummary};

verus! {

/// What every match of a pattern needs of the document around it.
pub struct RootNeeds {
    min_len: u64,
    single_line: bool,
    byte_counts: Option<ScanNeed>,
    any_byte_sets: Vec<ByteSet256>,
    line_start: Option<ByteSet256>,
    line_end: Option<ByteSet256>,
    starts_with: Option<EdgeBytes>,
    ends_with: Option<EdgeBytes>,
}

/// The conditions that come from optional parts.
pub open spec fn optional_need(need: Option<ScanNeed>) -> Seq<ScanNeed> {
    match need {
        Some(need) => seq![need],
        None => Seq::empty(),
    }
}

/// The lengths a pattern asks for.
pub open spec fn length_needs(min_len: u64, single_line: bool) -> Seq<ScanNeed> {
    (if min_len > 0 {
        seq![ScanNeed::MinByteLen(min_len)]
    } else {
        Seq::empty()
    }) + (if single_line && min_len > 1 {
        seq![
            ScanNeed::MinLongestLineLen(
                if min_len > u32::MAX {
                    u32::MAX
                } else {
                    min_len as u32
                },
            ),
        ]
    } else {
        Seq::empty()
    })
}

/// One condition per byte set.
pub open spec fn set_needs(sets: Seq<ByteSet256>) -> Seq<ScanNeed> {
    Seq::new(sets.len(), |i: int| ScanNeed::ContainsAnyByte(sets[i]))
}

/// The conditions at line and document edges.
pub open spec fn edge_needs(
    line_start: Option<ByteSet256>,
    line_end: Option<ByteSet256>,
    starts_with: Option<EdgeBytes>,
    ends_with: Option<EdgeBytes>,
) -> Seq<ScanNeed> {
    optional_need(
        match line_start {
            Some(set) => Some(ScanNeed::LineStartsWithAnyByte(set)),
            None => None,
        },
    ) + optional_need(
        match line_end {
            Some(set) => Some(ScanNeed::LineEndsWithAnyByte(set)),
            None => None,
        },
    ) + optional_need(
        match starts_with {
            Some(edge) => Some(ScanNeed::StartsWith(edge)),
            None => None,
        },
    ) + optional_need(
        match ends_with {
            Some(edge) => Some(ScanNeed::EndsWith(edge)),
            None => None,
        },
    )
}

/// The byte sets as sets of bytes.
pub open spec fn member_sets(sets: Seq<ByteSet256>) -> Seq<Set<u8>> {
    Seq::new(sets.len(), |i: int| sets[i].members())
}

impl RootNeeds {
    /// Every part is what the pattern gives.
    pub closed spec fn describes(self, h: Regex) -> bool {
        &&& self.min_len == crate::num::clamp_u64(facts::shortest(h) as int)
        &&& self.single_line == !facts::allows_newline(h)
        &&& facts::is_count_need(self.byte_counts, h)
        &&& member_sets(self.any_byte_sets@) == classes::required_sets(h)
        &&& members_of(self.line_start) == line_bytes(h, Edge::Start)
        &&& members_of(self.line_end) == line_bytes(h, Edge::End)
        &&& (match self.starts_with {
            Some(edge) => doc_literal(h, Edge::Start) == Some(edge@),
            None => doc_literal(h, Edge::Start) is None,
        })
        &&& (match self.ends_with {
            Some(edge) => doc_literal(h, Edge::End) == Some(edge@),
            None => doc_literal(h, Edge::End) is None,
        })
    }

    /// The conditions, in the order they are listed.
    pub closed spec fn list(self) -> Seq<ScanNeed> {
        length_needs(self.min_len, self.single_line) + optional_need(self.byte_counts) + set_needs(
            self.any_byte_sets@,
        ) + edge_needs(self.line_start, self.line_end, self.starts_with, self.ends_with)
    }

    /// What every match of `hir` needs.
    pub fn from_hir(hir: &Regex) -> (needs: RootNeeds)
        requires
            hir.wf(),
        ensures
            needs.describes(*hir),
    {
        RootNeeds {
            min_len: facts::min_match_len(hir),
            single_line: !facts::can_match_newline(hir),
            byte_counts: facts::byte_counts(hir),
            any_byte_sets: classes::required(hir),
            line_start: line_anchor_bytes(hir, Edge::Start),
            line_end: line_anchor_bytes(hir, Edge::End),
            starts_with: doc_edge_literal(hir, Edge::Start),
            ends_with: doc_edge_literal(hir, Edge::End),
        }
    }

    /// The needs as scan conditions.
    pub fn into_vec(self) -> (needs: Vec<ScanNeed>)
        ensures
            needs@ == self.list(),
    {
        let mut needs: Vec<ScanNeed> = Vec::new();
        push_lengths(&mut needs, self.min_len, self.single_line);
        assert(needs@ =~= length_needs(self.min_len, self.single_line));
        push_optional(&mut needs, self.byte_counts);
        push_sets(&mut needs, &self.any_byte_sets);
        push_optional(
            &mut needs,
            match self.line_start {
                Some(set) => Some(ScanNeed::LineStartsWithAnyByte(set)),
                None => None,
            },
        );
        push_optional(
            &mut needs,
            match self.line_end {
                Some(set) => Some(ScanNeed::LineEndsWithAnyByte(set)),
                None => None,
            },
        );
        push_optional(
            &mut needs,
            match self.starts_with {
                Some(edge) => Some(ScanNeed::StartsWith(edge)),
                None => None,
            },
        );
        push_optional(
            &mut needs,
            match self.ends_with {
                Some(edge) => Some(ScanNeed::EndsWith(edge)),
                None => None,
            },
        );
        assert(needs@ =~= self.list());
        needs
    }
}

/// The summary meets what a pattern asks of lengths, bytes and edges.
pub open spec fn meets(h: Regex, summary: ScanSummary) -> bool {
    &&& summary.byte_len >= clamp_u64(facts::shortest(h) as int)
    &&& !facts::allows_newline(h) ==> summary.longest_line_len >= clamp_u32(
        facts::shortest(h) as int,
    )
    &&& forall|c: u8|
        summary.byte_counts.tally()[c as int] >= #[trigger] facts::least_count(h, c)
            || summary.byte_counts.tally()[c as int] == 255
    &&& forall|i: int|
        0 <= i < classes::required_sets(h).len() ==> some_counted(
            #[trigger] classes::required_sets(h)[i],
            summary,
        )
    &&& line_bytes(h, Edge::Start) matches Some(set) ==> exists|c: u8| #[trigger]
        set.contains(c) && summary.line_start_bytes.has(c)
    &&& line_bytes(h, Edge::End) matches Some(set) ==> exists|c: u8| #[trigger]
        set.contains(c) && summary.line_end_bytes.has(c)
    &&& doc_literal(h, Edge::Start) matches Some(lit) ==> extends(
        Order::Prefix,
        lit,
        summary.prefix@,
    )
    &&& doc_literal(h, Edge::End) matches Some(lit) ==> extends(Order::Suffix, lit, summary.suffix@)
}

/// The summary counts a byte of the set.
pub open spec fn some_counted(set: Set<u8>, summary: ScanSummary) -> bool {
    exists|c: u8| #[trigger] set.contains(c) && summary.byte_counts.tally()[c as int] > 0
}

/// Every listed condition is met where the pattern's demands are.
pub proof fn lemma_needs_met(needs: RootNeeds, h: Regex, summary: ScanSummary)
    requires
        needs.describes(h),
        meets(h, summary),
    ensures
        forall|i: int| 0 <= i < needs.list().len() ==> need_met(#[trigger] needs.list()[i], summary),
{
    let lengths = length_needs(needs.min_len, needs.single_line);
    let counts = optional_need(needs.byte_counts);
    let sets = set_needs(needs.any_byte_sets@);
    let edges = edge_needs(needs.line_start, needs.line_end, needs.starts_with, needs.ends_with);
    assert forall|i: int| 0 <= i < lengths.len() implies need_met(#[trigger] lengths[i], summary) by {}
    assert forall|i: int| 0 <= i < counts.len() implies need_met(#[trigger] counts[i], summary) by {
        let need = counts[i]->MinByteCounts_0;
        assert forall|b: int| 0 <= b < 256 implies #[trigger] summary.byte_counts.tally()[b]
            >= need.tally()[b] || summary.byte_counts.tally()[b] == 255 by {
            let c = b as u8;
            assert(need.tally()[c as int] == facts::least_count(h, c));
        }
    }
    assert forall|i: int| 0 <= i < sets.len() implies need_met(#[trigger] sets[i], summary) by {
        let set = needs.any_byte_sets@[i];
        assert(member_sets(needs.any_byte_sets@)[i] == set.members());
        assert(some_counted(classes::required_sets(h)[i], summary));
        assert(some_counted(set.members(), summary));
        let c = choose|c: u8| #[trigger]
            set.members().contains(c) && summary.byte_counts.tally()[c as int] > 0;
        lemma_byte_met(set, c, summary);
        assert(sets[i] == ScanNeed::ContainsAnyByte(set));
    }
    lemma_edges_met(needs, h, summary);
    let list = needs.list();
    assert forall|i: int| 0 <= i < list.len() implies need_met(#[trigger] list[i], summary) by {
        let a = lengths.len() as int;
        let b = a + counts.len();
        let c = b + sets.len();
        if i < a {
            assert(list[i] == lengths[i]);
        } else if i < b {
            assert(list[i] == counts[i - a]);
        } else if i < c {
            assert(list[i] == sets[i - b]);
        } else {
            assert(list[i] == edges[i - c]);
        }
    }
}

/// What the listed conditions ask of a summary: a pattern's demands on lengths,
/// bytes and edges, a line length only above one byte.
pub open spec fn asks(h: Regex, summary: ScanSummary) -> bool {
    &&& summary.byte_len >= clamp_u64(facts::shortest(h) as int)
    &&& !facts::allows_newline(h) && facts::shortest(h) > 1 ==> summary.longest_line_len
        >= clamp_u32(facts::shortest(h) as int)
    &&& forall|c: u8|
        summary.byte_counts.tally()[c as int] >= #[trigger] facts::least_count(h, c)
    &&& forall|i: int|
        0 <= i < classes::required_sets(h).len() ==> some_counted(
            #[trigger] classes::required_sets(h)[i],
            summary,
        )
    &&& line_bytes(h, Edge::Start) matches Some(set) ==> exists|c: u8| #[trigger]
        set.contains(c) && summary.line_start_bytes.has(c)
    &&& line_bytes(h, Edge::End) matches Some(set) ==> exists|c: u8| #[trigger]
        set.contains(c) && summary.line_end_bytes.has(c)
    &&& doc_literal(h, Edge::Start) matches Some(lit) ==> extends(
        Order::Prefix,
        lit,
        summary.prefix@,
    )
    &&& doc_literal(h, Edge::End) matches Some(lit) ==> extends(Order::Suffix, lit, summary.suffix@)
}

/// Where every listed condition is met, so are the pattern's demands.
pub proof fn lemma_needs_ask(needs: RootNeeds, h: Regex, summary: ScanSummary)
    requires
        needs.describes(h),
        forall|i: int| 0 <= i < needs.list().len() ==> need_met(#[trigger] needs.list()[i], summary),
    ensures
        asks(h, summary),
{
    let list = needs.list();
    let lengths = length_needs(needs.min_len, needs.single_line);
    let counts = optional_need(needs.byte_counts);
    let sets = set_needs(needs.any_byte_sets@);
    let edges = edge_needs(needs.line_start, needs.line_end, needs.starts_with, needs.ends_with);
    let a = lengths.len() as int;
    let b = a + counts.len();
    let c = b + sets.len();
    assert forall|i: int| 0 <= i < lengths.len() implies need_met(#[trigger] lengths[i], summary) by {
        assert(list[i] == lengths[i]);
    }
    assert forall|i: int| 0 <= i < counts.len() implies need_met(#[trigger] counts[i], summary) by {
        assert(list[a + i] == counts[i]);
    }
    assert forall|i: int| 0 <= i < sets.len() implies need_met(#[trigger] sets[i], summary) by {
        assert(list[b + i] == sets[i]);
    }
    assert forall|i: int| 0 <= i < edges.len() implies need_met(#[trigger] edges[i], summary) by {
        assert(list[c + i] == edges[i]);
    }
    lemma_lengths_ask(needs.min_len, needs.single_line, summary);
    assert forall|c: u8| summary.byte_counts.tally()[c as int] >= #[trigger] facts::least_count(
        h,
        c,
    ) by {
        if let Some(need) = needs.byte_counts {
            assert(counts[0] == need);
            assert(need_met(need, summary));
            let counts = need->MinByteCounts_0;
            assert(counts.tally()[c as int] == facts::least_count(h, c));
            assert(summary.byte_counts.tally()[c as int] >= counts.tally()[c as int]
                || summary.byte_counts.tally()[c as int] == 255);
        }
    }
    let wanted = classes::required_sets(h);
    assert forall|i: int| 0 <= i < wanted.len() implies some_counted(#[trigger] wanted[i], summary) by {
        let set = needs.any_byte_sets@[i];
        assert(member_sets(needs.any_byte_sets@)[i] == set.members());
        assert(sets[i] == ScanNeed::ContainsAnyByte(set));
        assert(need_met(sets[i], summary));
        let c = choose|c: u8| #[trigger]
            set.has(c) && summary.byte_counts.tally()[c as int] > 0;
        assert(set.members().contains(c));
    }
    lemma_edges_ask(needs, h, summary);
}

proof fn lemma_lengths_ask(min_len: u64, single_line: bool, summary: ScanSummary)
    requires
        forall|i: int|
            0 <= i < length_needs(min_len, single_line).len() ==> need_met(
                #[trigger] length_needs(min_len, single_line)[i],
                summary,
            ),
    ensures
        summary.byte_len >= min_len,
        single_line && min_len > 1 ==> summary.longest_line_len >= clamp_u32(min_len as int),
{
    let lengths = length_needs(min_len, single_line);
    if min_len > 0 {
        assert(need_met(lengths[0], summary));
        if single_line && min_len > 1 {
            assert(need_met(lengths[1], summary));
        }
    }
}

proof fn lemma_edges_ask(needs: RootNeeds, h: Regex, summary: ScanSummary)
    requires
        needs.describes(h),
        ({
            let edges = edge_needs(
                needs.line_start,
                needs.line_end,
                needs.starts_with,
                needs.ends_with,
            );
            forall|i: int| 0 <= i < edges.len() ==> need_met(#[trigger] edges[i], summary)
        }),
    ensures
        line_bytes(h, Edge::Start) matches Some(set) ==> exists|c: u8| #[trigger]
            set.contains(c) && summary.line_start_bytes.has(c),
        line_bytes(h, Edge::End) matches Some(set) ==> exists|c: u8| #[trigger]
            set.contains(c) && summary.line_end_bytes.has(c),
        doc_literal(h, Edge::Start) matches Some(lit) ==> extends(
            Order::Prefix,
            lit,
            summary.prefix@,
        ),
        doc_literal(h, Edge::End) matches Some(lit) ==> extends(
            Order::Suffix,
            lit,
            summary.suffix@,
        ),
{
    let edges = edge_needs(needs.line_start, needs.line_end, needs.starts_with, needs.ends_with);
    let i = if needs.line_start is Some { 1int } else { 0 };
    let j = i + if needs.line_end is Some { 1int } else { 0 };
    let k = j + if needs.starts_with is Some { 1int } else { 0 };
    if let Some(set) = needs.line_start {
        assert(edges[0] == ScanNeed::LineStartsWithAnyByte(set));
        assert(need_met(edges[0], summary));
        let c = choose|c: u8| #[trigger] set.has(c) && summary.line_start_bytes.has(c);
        assert(set.members().contains(c));
    }
    if let Some(set) = needs.line_end {
        assert(edges[i] == ScanNeed::LineEndsWithAnyByte(set));
        assert(need_met(edges[i], summary));
        let c = choose|c: u8| #[trigger] set.has(c) && summary.line_end_bytes.has(c);
        assert(set.members().contains(c));
    }
    if let Some(edge) = needs.starts_with {
        assert(edges[j] == ScanNeed::StartsWith(edge));
        assert(need_met(edges[j], summary));
    }
    if let Some(edge) = needs.ends_with {
        assert(edges[k] == ScanNeed::EndsWith(edge));
        assert(need_met(edges[k], summary));
    }
}

/// A byte of the set meets the conditions that ask for any of it.
proof fn lemma_byte_met(set: ByteSet256, c: u8, summary: ScanSummary)
    requires
        set.members().contains(c),
    ensures
        summary.byte_counts.tally()[c as int] > 0 ==> need_met(
            ScanNeed::ContainsAnyByte(set),
            summary,
        ),
        summary.line_start_bytes.has(c) ==> need_met(ScanNeed::LineStartsWithAnyByte(set), summary),
        summary.line_end_bytes.has(c) ==> need_met(ScanNeed::LineEndsWithAnyByte(set), summary),
{
    let tally = summary.byte_counts.tally();
    assert(set.has(c));
    if tally[c as int] > 0 {
        let need = ScanNeed::ContainsAnyByte(set);
        assert(need->ContainsAnyByte_0.has(c) && tally[c as int] > 0);
        assert(need_met(need, summary));
    }
    if summary.line_start_bytes.has(c) {
        let need = ScanNeed::LineStartsWithAnyByte(set);
        assert(need->LineStartsWithAnyByte_0.has(c) && summary.line_start_bytes.has(c));
        assert(need_met(need, summary));
    }
    if summary.line_end_bytes.has(c) {
        let need = ScanNeed::LineEndsWithAnyByte(set);
        assert(need->LineEndsWithAnyByte_0.has(c) && summary.line_end_bytes.has(c));
        assert(need_met(need, summary));
    }
}

proof fn lemma_edges_met(needs: RootNeeds, h: Regex, summary: ScanSummary)
    requires
        needs.describes(h),
        meets(h, summary),
    ensures
        ({
            let edges = edge_needs(
                needs.line_start,
                needs.line_end,
                needs.starts_with,
                needs.ends_with,
            );
            forall|i: int| 0 <= i < edges.len() ==> need_met(#[trigger] edges[i], summary)
        }),
{
    if let Some(set) = needs.line_start {
        let c = choose|c: u8| #[trigger]
            set.members().contains(c) && summary.line_start_bytes.has(c);
        lemma_byte_met(set, c, summary);
    }
    if let Some(set) = needs.line_end {
        let c = choose|c: u8| #[trigger]
            set.members().contains(c) && summary.line_end_bytes.has(c);
        lemma_byte_met(set, c, summary);
    }
    let edges = edge_needs(needs.line_start, needs.line_end, needs.starts_with, needs.ends_with);
    assert forall|i: int| 0 <= i < edges.len() implies need_met(#[trigger] edges[i], summary) by {
        let need = edges[i];
        assert(need is LineStartsWithAnyByte || need is LineEndsWithAnyByte || need is StartsWith
            || need is EndsWith);
        assert(need is LineStartsWithAnyByte ==> need_met(need, summary));
        assert(need is LineEndsWithAnyByte ==> need_met(need, summary));
        assert(need is StartsWith ==> need_met(need, summary));
        assert(need is EndsWith ==> need_met(need, summary));
    }
}

fn push_lengths(needs: &mut Vec<ScanNeed>, min_len: u64, single_line: bool)
    ensures
        final(needs)@ == old(needs)@ + length_needs(min_len, single_line),
{
    if min_len > 0 {
        needs.push(ScanNeed::MinByteLen(min_len));
    }
    if single_line && min_len > 1 {
        let len: u32 = if min_len > u32::MAX as u64 {
            u32::MAX
        } else {
            min_len as u32
        };
        needs.push(ScanNeed::MinLongestLineLen(len));
    }
    assert(needs@ =~= old(needs)@ + length_needs(min_len, single_line));
}

fn push_optional(needs: &mut Vec<ScanNeed>, need: Option<ScanNeed>)
    ensures
        final(needs)@ == old(needs)@ + optional_need(need),
{
    if let Some(need) = need {
        needs.push(need);
    }
    assert(needs@ =~= old(needs)@ + optional_need(need));
}

fn push_sets(needs: &mut Vec<ScanNeed>, sets: &Vec<ByteSet256>)
    ensures
        final(needs)@ == old(needs)@ + set_needs(sets@),
{
    let mut i: usize = 0;
    assert(needs@ =~= old(needs)@ + set_needs(sets@.take(0)));
    while i < sets.len()
        invariant
            i <= sets@.len(),
            needs@ == old(needs)@ + set_needs(sets@.take(i as int)),
        decreases sets@.len() - i,
    {
        needs.push(ScanNeed::ContainsAnyByte(sets[i]));
        i = i + 1;
        assert(needs@ =~= old(needs)@ + set_needs(sets@.take(i as int)));
    }
    assert(sets@.take(i as int) =~= sets@);
}

} // verus!
