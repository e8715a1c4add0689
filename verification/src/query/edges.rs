//! Anchored edge-byte and edge-literal derivation from a regex tree.

use vstd::prelude::*;

use crate::bytes::{ByteSet256, EdgeBytes};
use crate::query::gram::copy_range;
use crate::query::hir::{Assertion, CharClass, Regex};
use crate::query::utf8::utf8;

verus! {

/// Which content edge an anchor binds.
#[derive(Debug, Clone, Copy, PartialEq, Eq, Structural)]
pub enum Edge {
    /// The start.
    Start,
    /// The end.
    End,
}

/// The assertion binds this edge to a line break or the text's edge.
pub open spec fn is_line_look(edge: Edge, look: Assertion) -> bool {
    match edge {
        Edge::Start => look == Assertion::StartLF || look == Assertion::Start,
        Edge::End => look == Assertion::EndLF || look == Assertion::End,
    }
}

/// The assertion that binds this edge to the text's edge.
pub open spec fn doc_look_of(edge: Edge) -> Assertion {
    match edge {
        Edge::Start => Assertion::Start,
        Edge::End => Assertion::End,
    }
}

/// The `i`-th part counted from the edge.
pub open spec fn from_edge(subs: Seq<Regex>, edge: Edge, i: int) -> Regex {
    match edge {
        Edge::Start => subs[i],
        Edge::End => subs[subs.len() - 1 - i],
    }
}

/// The bytes from `lo` to `hi`.
pub open spec fn byte_span(lo: int, hi: int) -> Set<u8> {
    Set::new(|b: u8| lo <= b <= hi)
}

/// A scalar range's bytes at the edge.
pub open spec fn scalar_edge(lo: int, hi: int, edge: Edge) -> Set<u8> {
    match edge {
        Edge::Start => byte_span(utf8(lo)[0] as int, utf8(hi)[0] as int),
        Edge::End => byte_span(
            lo,
            if hi < 0x80 {
                hi
            } else {
                0x7F
            },
        ).union(
            if hi < 0x80 {
                Set::empty()
            } else {
                byte_span(0x80, 0xBF)
            },
        ),
    }
}

/// The bytes a class shows at the edge, from its first `n` ranges.
pub open spec fn class_edge(class: CharClass, edge: Edge, n: int) -> Set<u8>
    decreases n,
{
    if n <= 0 {
        Set::empty()
    } else {
        match class {
            CharClass::Bytes(ranges) => class_edge(class, edge, n - 1).union(
                byte_span(ranges@[n - 1].0 as int, ranges@[n - 1].1 as int),
            ),
            CharClass::Unicode(ranges) => class_edge(class, edge, n - 1).union(
                scalar_edge(ranges@[n - 1].0 as int, ranges@[n - 1].1 as int, edge),
            ),
        }
    }
}

/// How many ranges a class has.
pub open spec fn range_len(class: CharClass) -> int {
    match class {
        CharClass::Bytes(ranges) => ranges@.len() as int,
        CharClass::Unicode(ranges) => ranges@.len() as int,
    }
}

/// The bytes a class shows at the edge.
pub open spec fn class_bytes(class: CharClass, edge: Edge) -> Set<u8> {
    class_edge(class, edge, range_len(class))
}

/// The byte a literal shows at the edge.
pub open spec fn literal_bytes(bytes: Seq<u8>, edge: Edge) -> Set<u8> {
    if bytes.len() == 0 {
        Set::empty()
    } else {
        set![
            match edge {
                Edge::Start => bytes[0],
                Edge::End => bytes.last(),
            },
        ]
    }
}

/// The bytes a match can show at the edge, and whether it may show none.
pub open spec fn shown_bytes(h: Regex, edge: Edge) -> (Set<u8>, bool)
    decreases h, 1int, 0int,
{
    match h {
        Regex::Empty => (Set::empty(), true),
        Regex::Look(_) => (Set::empty(), true),
        Regex::Literal(bytes) => (literal_bytes(bytes@, edge), bytes@.len() == 0),
        Regex::Class(class) => (class_bytes(class, edge), false),
        Regex::Capture(sub) => shown_bytes(*sub, edge),
        Regex::Repetition(rep) => {
            let (set, empty) = shown_bytes(*rep.sub, edge);
            (set, empty || rep.min == 0)
        },
        Regex::Concat(subs) => concat_shown(h, edge, subs@.len() as int),
        Regex::Alternation(subs) => alternation_shown(h, edge, subs@.len() as int),
    }
}

/// The bytes the first `n` parts of a concatenation show, counted from the
/// edge up to the first part that is never empty.
pub open spec fn concat_shown(h: Regex, edge: Edge, n: int) -> (Set<u8>, bool)
    decreases h, 0int, n,
{
    match h {
        Regex::Concat(subs) => if n <= 0 || n > subs@.len() {
            (Set::empty(), true)
        } else {
            let (set, open) = concat_shown(h, edge, n - 1);
            if !open {
                (set, open)
            } else {
                let (more, empty) = match edge {
                    Edge::Start => shown_bytes(subs@[n - 1], edge),
                    Edge::End => shown_bytes(subs@[subs@.len() - n], edge),
                };
                (set.union(more), empty)
            }
        },
        _ => (Set::empty(), true),
    }
}

/// The bytes the first `n` branches of an alternation show.
pub open spec fn alternation_shown(h: Regex, edge: Edge, n: int) -> (Set<u8>, bool)
    decreases h, 0int, n,
{
    match h {
        Regex::Alternation(subs) => if n <= 0 || n > subs@.len() {
            (Set::empty(), false)
        } else {
            let (set, open) = alternation_shown(h, edge, n - 1);
            let (more, empty) = shown_bytes(subs@[n - 1], edge);
            (set.union(more), open || empty)
        },
        _ => (Set::empty(), false),
    }
}

/// The bytes from the `i`-th part on, counted from the edge, when a part that
/// is never empty comes.
pub open spec fn tail_shown(subs: Seq<Regex>, edge: Edge, i: int, set: Set<u8>) -> Option<Set<u8>>
    decreases subs.len() - i,
{
    if i < 0 || i >= subs.len() {
        None
    } else {
        let (more, empty) = shown_bytes(from_edge(subs, edge, i), edge);
        if empty {
            tail_shown(subs, edge, i + 1, set.union(more))
        } else {
            Some(set.union(more))
        }
    }
}

/// The bytes next to a line anchor that every match has at the edge.
pub open spec fn anchored_bytes(h: Regex, edge: Edge) -> Option<Set<u8>>
    decreases h, 1int, 0int,
{
    match h {
        Regex::Capture(sub) => anchored_bytes(*sub, edge),
        Regex::Repetition(rep) => if rep.min >= 1 {
            anchored_bytes(*rep.sub, edge)
        } else {
            None
        },
        Regex::Alternation(subs) => anchored_branches(h, edge, subs@.len() as int),
        Regex::Concat(subs) => if subs@.len() > 0 && (from_edge(subs@, edge, 0) matches Regex::Look(
            look,
        ) && is_line_look(edge, look)) {
            tail_shown(subs@, edge, 1, Set::empty())
        } else {
            None
        },
        _ => None,
    }
}

/// The union over the first `n` branches, when all are anchored.
pub open spec fn anchored_branches(h: Regex, edge: Edge, n: int) -> Option<Set<u8>>
    decreases h, 0int, n,
{
    match h {
        Regex::Alternation(subs) => if n <= 0 || n > subs@.len() {
            Some(Set::empty())
        } else {
            match (anchored_branches(h, edge, n - 1), anchored_bytes(subs@[n - 1], edge)) {
                (Some(a), Some(b)) => Some(a.union(b)),
                _ => None,
            }
        },
        _ => None,
    }
}

/// The bytes a line must start (or end) with, when every match is anchored to
/// a line's edge and none of the bytes is a line break.
pub open spec fn line_bytes(h: Regex, edge: Edge) -> Option<Set<u8>> {
    match anchored_bytes(h, edge) {
        Some(set) => if set == Set::<u8>::empty() || set.contains(10) {
            None
        } else {
            Some(set)
        },
        None => None,
    }
}

/// The bytes of a literal anchored to the text's edge, as far as an edge
/// holds them.
pub open spec fn doc_literal(h: Regex, edge: Edge) -> Option<Seq<u8>> {
    match h {
        Regex::Concat(subs) => if subs@.len() >= 2 && from_edge(subs@, edge, 0) == Regex::Look(
            doc_look_of(edge),
        ) && (from_edge(subs@, edge, 1) matches Regex::Literal(bytes) && bytes@.len() > 0) {
            let bytes = from_edge(subs@, edge, 1)->Literal_0@;
            let n = bytes.len() as int;
            let keep = if n < EdgeBytes::CAPACITY {
                n
            } else {
                EdgeBytes::CAPACITY as int
            };
            Some(
                match edge {
                    Edge::Start => bytes.subrange(0, keep),
                    Edge::End => bytes.subrange(n - keep, n),
                },
            )
        } else {
            None
        },
        _ => None,
    }
}

/// The bytes of an optional set.
pub open spec fn members_of(set: Option<ByteSet256>) -> Option<Set<u8>> {
    match set {
        Some(set) => Some(set.members()),
        None => None,
    }
}

impl Edge {
    /// Whether the assertion binds this edge to a line break or the text's
    /// edge.
    fn line_look(self, look: Assertion) -> (binds: bool)
        ensures
            binds == is_line_look(self, look),
    {
        match self {
            Edge::Start => look == Assertion::StartLF || look == Assertion::Start,
            Edge::End => look == Assertion::EndLF || look == Assertion::End,
        }
    }

    /// The assertion that binds this edge to the text's edge.
    fn doc_look(self) -> (look: Assertion)
        ensures
            look == doc_look_of(self),
    {
        match self {
            Edge::Start => Assertion::Start,
            Edge::End => Assertion::End,
        }
    }

    /// The `i`-th part counted from this edge.
    fn at(self, subs: &Vec<Regex>, i: usize) -> (sub: &Regex)
        requires
            i < subs@.len(),
        ensures
            *sub == from_edge(subs@, self, i as int),
            decreases_to!(subs => sub),
            exists|k: int| 0 <= k < subs@.len() && *sub == #[trigger] subs@[k],
    {
        match self {
            Edge::Start => {
                assert(subs@[i as int] == from_edge(subs@, self, i as int));
                &subs[i]
            },
            Edge::End => {
                let k: usize = subs.len() - 1 - i;
                assert(subs@[k as int] == from_edge(subs@, self, i as int));
                &subs[k]
            },
        }
    }
}

/// The bytes every line-anchored match shows next to the line's edge.
pub fn line_anchor_bytes(hir: &Regex, edge: Edge) -> (set: Option<ByteSet256>)
    requires
        hir.wf(),
    ensures
        members_of(set) == line_bytes(*hir, edge),
{
    match anchored_edge_bytes(hir, edge) {
        None => None,
        Some(set) => {
            let empty = set.is_empty();
            proof {
                if empty {
                    assert(set.members() =~= Set::<u8>::empty());
                } else {
                    let b = choose|b: u8| set.has(b);
                    assert(set.members().contains(b));
                }
            }
            if !empty && !set.contains(10) {
                Some(set)
            } else {
                None
            }
        },
    }
}

fn anchored_edge_bytes(hir: &Regex, edge: Edge) -> (set: Option<ByteSet256>)
    requires
        hir.wf(),
    ensures
        members_of(set) == anchored_bytes(*hir, edge),
    decreases hir,
{
    match hir {
        Regex::Capture(sub) => anchored_edge_bytes(sub, edge),
        Regex::Repetition(rep) => {
            if rep.min >= 1 {
                anchored_edge_bytes(&rep.sub, edge)
            } else {
                None
            }
        },
        Regex::Alternation(subs) => {
            let mut acc = ByteSet256::default();
            let mut i: usize = 0;
            assert(acc.members() =~= Set::<u8>::empty());
            while i < subs.len()
                invariant
                    i <= subs@.len(),
                    hir.wf(),
                    *hir == Regex::Alternation(*subs),
                    anchored_branches(*hir, edge, i as int) == Some(acc.members()),
                decreases subs@.len() - i,
            {
                assert(subs@[i as int].wf());
                match anchored_edge_bytes(&subs[i], edge) {
                    None => {
                        proof {
                            lemma_unanchored(*hir, edge, i + 1);
                        }
                        return None;
                    },
                    Some(set) => {
                        let ghost (a, b) = (acc.members(), set.members());
                        acc = acc.union(set);
                        assert(acc.members() =~= a.union(b));
                    },
                }
                i = i + 1;
            }
            Some(acc)
        },
        Regex::Concat(subs) => anchored_concat_bytes(subs, edge),
        _ => None,
    }
}

proof fn lemma_unanchored(h: Regex, edge: Edge, i: int)
    requires
        h matches Regex::Alternation(subs) && 0 < i <= subs@.len(),
        anchored_branches(h, edge, i) is None,
    ensures
        anchored_bytes(h, edge) is None,
{
    if let Regex::Alternation(subs) = h {
        lemma_unanchored_upto(h, edge, i, subs@.len() as int);
    }
}

proof fn lemma_unanchored_upto(h: Regex, edge: Edge, i: int, n: int)
    requires
        h matches Regex::Alternation(subs) && 0 < i <= n <= subs@.len(),
        anchored_branches(h, edge, i) is None,
    ensures
        anchored_branches(h, edge, n) is None,
    decreases n - i,
{
    if i < n {
        lemma_unanchored_upto(h, edge, i, n - 1);
    }
}

fn anchored_concat_bytes(subs: &Vec<Regex>, edge: Edge) -> (set: Option<ByteSet256>)
    requires
        forall|i: int| 0 <= i < subs@.len() ==> (#[trigger] subs@[i]).wf(),
    ensures
        members_of(set) == anchored_bytes(Regex::Concat(*subs), edge),
{
    if subs.len() == 0 {
        return None;
    }
    let first = edge.at(subs, 0);
    match first {
        Regex::Look(look) => {
            if !edge.line_look(*look) {
                return None;
            }
        },
        _ => {
            return None;
        },
    }
    let ghost goal = anchored_bytes(Regex::Concat(*subs), edge);
    let mut set = ByteSet256::default();
    let mut i: usize = 1;
    assert(set.members() =~= Set::<u8>::empty());
    while i < subs.len()
        invariant
            1 <= i <= subs@.len(),
            forall|i: int| 0 <= i < subs@.len() ==> (#[trigger] subs@[i]).wf(),
            goal == anchored_bytes(Regex::Concat(*subs), edge),
            goal == tail_shown(subs@, edge, i as int, set.members()),
        decreases subs@.len() - i,
    {
        let sub = edge.at(subs, i);
        let (more, empty) = edge_bytes(sub, edge);
        let ghost (a, b) = (set.members(), more.members());
        set = set.union(more);
        assert(set.members() =~= a.union(b));
        if !empty {
            return Some(set);
        }
        i = i + 1;
    }
    None
}

/// The bytes a match can show at the edge, and whether it may show none.
pub fn edge_bytes(hir: &Regex, edge: Edge) -> (shown: (ByteSet256, bool))
    requires
        hir.wf(),
    ensures
        (shown.0.members(), shown.1) == shown_bytes(*hir, edge),
    decreases hir,
{
    match hir {
        Regex::Empty => empty_edge(),
        Regex::Look(_) => empty_edge(),
        Regex::Literal(bytes) => literal_edge(bytes.as_slice(), edge),
        Regex::Class(class) => (class_edge_bytes(class, edge), false),
        Regex::Capture(sub) => edge_bytes(sub, edge),
        Regex::Repetition(rep) => {
            let (set, empty) = edge_bytes(&rep.sub, edge);
            (set, empty || rep.min == 0)
        },
        Regex::Concat(subs) => {
            let mut set = ByteSet256::default();
            let mut i: usize = 0;
            assert(set.members() =~= Set::<u8>::empty());
            while i < subs.len()
                invariant
                    i <= subs@.len(),
                    hir.wf(),
                    *hir == Regex::Concat(*subs),
                    concat_shown(*hir, edge, i as int) == (set.members(), true),
                decreases subs@.len() - i,
            {
                let sub = edge.at(subs, i);
                let (more, empty) = edge_bytes(sub, edge);
                let ghost (a, b) = (set.members(), more.members());
                set = set.union(more);
                assert(set.members() =~= a.union(b));
                i = i + 1;
                if !empty {
                    proof {
                        lemma_closed(*hir, edge, i as int, subs@.len() as int);
                    }
                    return (set, false);
                }
            }
            (set, true)
        },
        Regex::Alternation(subs) => {
            let mut set = ByteSet256::default();
            let mut open = false;
            let mut i: usize = 0;
            assert(set.members() =~= Set::<u8>::empty());
            while i < subs.len()
                invariant
                    i <= subs@.len(),
                    hir.wf(),
                    *hir == Regex::Alternation(*subs),
                    alternation_shown(*hir, edge, i as int) == (set.members(), open),
                decreases subs@.len() - i,
            {
                assert(subs@[i as int].wf());
                let (more, empty) = edge_bytes(&subs[i], edge);
                let ghost (a, b) = (set.members(), more.members());
                set = set.union(more);
                assert(set.members() =~= a.union(b));
                open = open || empty;
                i = i + 1;
            }
            (set, open)
        },
    }
}

proof fn lemma_closed(h: Regex, edge: Edge, i: int, n: int)
    requires
        h matches Regex::Concat(subs) && 0 < i <= n <= subs@.len(),
        !concat_shown(h, edge, i).1,
    ensures
        concat_shown(h, edge, n) == concat_shown(h, edge, i),
    decreases n - i,
{
    if i < n {
        lemma_closed(h, edge, i, n - 1);
    }
}

fn empty_edge() -> (shown: (ByteSet256, bool))
    ensures
        (shown.0.members(), shown.1) == (Set::<u8>::empty(), true),
{
    let set = ByteSet256::default();
    assert(set.members() =~= Set::<u8>::empty());
    (set, true)
}

fn literal_edge(bytes: &[u8], edge: Edge) -> (shown: (ByteSet256, bool))
    ensures
        (shown.0.members(), shown.1) == (literal_bytes(bytes@, edge), bytes@.len() == 0),
{
    let mut set = ByteSet256::default();
    if bytes.len() > 0 {
        set.insert(
            match edge {
                Edge::Start => bytes[0],
                Edge::End => bytes[bytes.len() - 1],
            },
        );
    }
    assert(set.members() =~= literal_bytes(bytes@, edge));
    (set, bytes.len() == 0)
}

/// The bytes of a literal anchored to the text's edge, as far as an edge
/// holds them.
pub fn doc_edge_literal(hir: &Regex, edge: Edge) -> (literal: Option<EdgeBytes>)
    ensures
        match literal {
            Some(literal) => doc_literal(*hir, edge) == Some(literal@),
            None => doc_literal(*hir, edge) is None,
        },
{
    let subs = match hir {
        Regex::Concat(subs) => subs,
        _ => return None,
    };
    if subs.len() < 2 {
        return None;
    }
    match edge.at(subs, 0) {
        Regex::Look(look) => {
            if *look != edge.doc_look() {
                return None;
            }
        },
        _ => {
            return None;
        },
    }
    match edge.at(subs, 1) {
        Regex::Literal(bytes) => {
            let n: usize = bytes.len();
            if n == 0 {
                return None;
            }
            let keep: usize = if n < EdgeBytes::CAPACITY {
                n
            } else {
                EdgeBytes::CAPACITY
            };
            let taken = match edge {
                Edge::Start => copy_range(bytes.as_slice(), 0, keep),
                Edge::End => copy_range(bytes.as_slice(), n - keep, n),
            };
            let literal = EdgeBytes::from_slice(taken.as_slice());
            assert(taken@.subrange(0, taken@.len() as int) =~= taken@);
            Some(literal)
        },
        _ => None,
    }
}

/// The first bytes of a class.
pub fn class_lead_bytes(class: &CharClass) -> (set: ByteSet256)
    requires
        class.wf(),
    ensures
        set.members() == class_bytes(*class, Edge::Start),
{
    class_edge_bytes(class, Edge::Start)
}

fn class_edge_bytes(class: &CharClass, edge: Edge) -> (set: ByteSet256)
    requires
        class.wf(),
    ensures
        set.members() == class_bytes(*class, edge),
{
    let mut set = ByteSet256::default();
    assert(set.members() =~= Set::<u8>::empty());
    match class {
        CharClass::Bytes(ranges) => {
            let mut i: usize = 0;
            while i < ranges.len()
                invariant
                    i <= ranges@.len(),
                    *class == CharClass::Bytes(*ranges),
                    set.members() == class_edge(*class, edge, i as int),
                decreases ranges@.len() - i,
            {
                let (lo, hi) = ranges[i];
                insert_range(&mut set, lo, hi);
                i = i + 1;
            }
        },
        CharClass::Unicode(ranges) => {
            let mut i: usize = 0;
            while i < ranges.len()
                invariant
                    i <= ranges@.len(),
                    class.wf(),
                    *class == CharClass::Unicode(*ranges),
                    set.members() == class_edge(*class, edge, i as int),
                decreases ranges@.len() - i,
            {
                let (lo, hi) = ranges[i];
                assert(ranges@[i as int].0 <= ranges@[i as int].1 <= 0x10FFFF);
                insert_scalar_range(&mut set, lo, hi, edge);
                i = i + 1;
            }
        },
    }
    set
}

fn insert_scalar_range(set: &mut ByteSet256, lo: u32, hi: u32, edge: Edge)
    requires
        lo <= hi <= 0x10FFFF,
    ensures
        final(set).members() == old(set).members().union(scalar_edge(lo as int, hi as int, edge)),
{
    let ghost before_set = set.members();
    match edge {
        Edge::Start => {
            insert_range(set, utf8_lead(lo), utf8_lead(hi));
        },
        Edge::End => {
            if lo < 0x80 {
                insert_range(
                    set,
                    lo as u8,
                    if hi < 0x80 {
                        hi as u8
                    } else {
                        0x7F
                    },
                );
            }
            if hi >= 0x80 {
                insert_range(set, 0x80, 0xBF);
            }
            assert(set.members() =~= before_set.union(scalar_edge(lo as int, hi as int, edge)));
        },
    }
}

/// The first byte of a code point's UTF-8 encoding.
fn utf8_lead(cp: u32) -> (b: u8)
    requires
        cp <= 0x10FFFF,
    ensures
        b == utf8(cp as int)[0],
{
    if cp < 0x80 {
        cp as u8
    } else if cp < 0x800 {
        (0xC0 + cp / 64) as u8
    } else if cp < 0x10000 {
        (0xE0 + cp / 4096) as u8
    } else {
        (0xF0 + cp / 262144) as u8
    }
}

fn insert_range(set: &mut ByteSet256, start: u8, end: u8)
    ensures
        final(set).members() == old(set).members().union(byte_span(start as int, end as int)),
{
    let mut b: usize = start as usize;
    while b <= end as usize
        invariant
            start <= b <= 256,
            forall|k: u8| #[trigger] set.has(k) == (old(set).has(k) || (start <= k < b && k <= end)),
        decreases 256 - b,
    {
        set.insert(b as u8);
        b = b + 1;
    }
    assert(set.members() =~= old(set).members().union(byte_span(start as int, end as int)));
}

/// The bytes in either set.
pub fn union(left: ByteSet256, right: ByteSet256) -> (set: ByteSet256)
    ensures
        set.members() == left.members().union(right.members()),
{
    let set = left.union(right);
    assert(set.members() =~= left.members().union(right.members()));
    set
}

/// Number of bytes in the set.
pub fn set_len(set: &ByteSet256) -> (n: u32)
    ensures
        n == crate::bytes::count_below(set.members(), 256),
{
    proof {
        crate::bytes::lemma_size(*set);
    }
    set.len()
}

} // verus!
