//! The plan a regex folds into.

pub mod display;
pub mod kept;
pub mod readable;
pub mod tune;

use vstd::prelude::*;

pub use crate::error::QueryError;

use crate::bytes::{ByteSet256, EdgeBytes, SaturatingByteCounts256};
use crate::num::{add_to_max, clamp};
use crate::query::flush::{extends, is_extension};
use crate::query::order::Order;

verus! {

/// The 64-bit key of a gram in an index.
#[derive(Debug, Clone, Copy, PartialEq, Eq, PartialOrd, Ord, Hash, Structural)]
pub struct GramKey(pub u64);

impl GramKey {
    /// The key with this value.
    pub fn new(value: u64) -> (key: GramKey)
        ensures
            key.0 == value,
    {
        GramKey(value)
    }
}

/// Facts about the characters of scanned text.
#[derive(Debug, Clone, Copy, PartialEq, Eq, Hash, Structural)]
pub struct ScanFlags {
    /// The text holds a lower-case ASCII letter.
    pub ascii_lower: bool,
}

impl Default for ScanFlags {
    fn default() -> (flags: ScanFlags)
        ensures
            flags == (ScanFlags { ascii_lower: false }),
    {
        ScanFlags { ascii_lower: false }
    }
}

impl ScanFlags {
    /// The flags with the lower-case flag set.
    pub fn with_ascii_lower(self) -> (flags: ScanFlags)
        ensures
            flags == (ScanFlags { ascii_lower: true }),
    {
        ScanFlags { ascii_lower: true }
    }
}

/// Document metadata mined by a scan.
#[derive(Debug, Clone, Copy, PartialEq, Eq)]
pub struct ScanSummary {
    /// Bytes of content.
    pub byte_len: u64,
    /// Lines of content.
    pub line_count: u64,
    /// Bytes of the longest line.
    pub longest_line_len: u32,
    /// Facts about the characters.
    pub flags: ScanFlags,
    /// How often each byte occurs.
    pub byte_counts: SaturatingByteCounts256,
    /// The first bytes of the lines.
    pub line_start_bytes: ByteSet256,
    /// The last bytes of the lines.
    pub line_end_bytes: ByteSet256,
    /// The first bytes of the content.
    pub prefix: EdgeBytes,
    /// The last bytes of the content.
    pub suffix: EdgeBytes,
}

impl Default for ScanSummary {
    fn default() -> (summary: ScanSummary)
        ensures
            summary.byte_len == 0,
            summary.line_count == 0,
            summary.longest_line_len == 0,
            !summary.flags.ascii_lower,
            forall|b: int| 0 <= b < 256 ==> #[trigger] summary.byte_counts.tally()[b] == 0,
            forall|b: u8| !(#[trigger] summary.line_start_bytes.has(b)),
            forall|b: u8| !(#[trigger] summary.line_end_bytes.has(b)),
            summary.prefix@ == Seq::<u8>::empty(),
            summary.suffix@ == Seq::<u8>::empty(),
    {
        ScanSummary {
            byte_len: 0,
            line_count: 0,
            longest_line_len: 0,
            flags: ScanFlags::default(),
            byte_counts: SaturatingByteCounts256::default(),
            line_start_bytes: ByteSet256::default(),
            line_end_bytes: ByteSet256::default(),
            prefix: EdgeBytes::default(),
            suffix: EdgeBytes::default(),
        }
    }
}

/// One condition over a [`ScanSummary`] every match needs, exhaustive because
/// an executor must handle every variant.
#[derive(Debug, Clone, PartialEq, Eq)]
pub enum ScanNeed {
    /// The content holds at least this many bytes.
    MinByteLen(u64),
    /// The longest line holds at least this many bytes.
    MinLongestLineLen(u32),
    /// At least one byte of the set occurs.
    ContainsAnyByte(ByteSet256),
    /// Every byte count meets these saturating minima.
    MinByteCounts(Box<SaturatingByteCounts256>),
    /// Some line starts with a byte of the set.
    LineStartsWithAnyByte(ByteSet256),
    /// Some line ends with a byte of the set.
    LineEndsWithAnyByte(ByteSet256),
    /// The content starts with these bytes.
    StartsWith(EdgeBytes),
    /// The content ends with these bytes.
    EndsWith(EdgeBytes),
}

/// The summary meets the condition.
pub open spec fn need_met(need: ScanNeed, summary: ScanSummary) -> bool {
    match need {
        ScanNeed::MinByteLen(n) => summary.byte_len >= n,
        ScanNeed::MinLongestLineLen(n) => summary.longest_line_len >= n,
        ScanNeed::ContainsAnyByte(bytes) => exists|b: u8| #[trigger]
            bytes.has(b) && summary.byte_counts.tally()[b as int] > 0,
        ScanNeed::MinByteCounts(counts) => forall|b: int|
            0 <= b < 256 ==> #[trigger] summary.byte_counts.tally()[b] >= counts.tally()[b]
                || summary.byte_counts.tally()[b] == 255,
        ScanNeed::LineStartsWithAnyByte(bytes) => exists|b: u8| #[trigger]
            bytes.has(b) && summary.line_start_bytes.has(b),
        ScanNeed::LineEndsWithAnyByte(bytes) => exists|b: u8| #[trigger]
            bytes.has(b) && summary.line_end_bytes.has(b),
        ScanNeed::StartsWith(edge) => extends(Order::Prefix, edge@, summary.prefix@),
        ScanNeed::EndsWith(edge) => extends(Order::Suffix, edge@, summary.suffix@),
    }
}

impl ScanNeed {
    /// True when the summary satisfies this condition.
    pub fn satisfied_by(&self, summary: &ScanSummary) -> (met: bool)
        ensures
            met == need_met(*self, *summary),
    {
        match self {
            ScanNeed::MinByteLen(n) => summary.byte_len >= *n,
            ScanNeed::MinLongestLineLen(n) => summary.longest_line_len >= *n,
            ScanNeed::ContainsAnyByte(bytes) => {
                let seen = ScanNeed::summary_byte_set(summary);
                let met = bytes.contains_any(seen);
                proof {
                    if met {
                        let b = choose|b: u8| #[trigger] bytes.has(b) && seen.has(b);
                        assert(bytes.has(b) && summary.byte_counts.tally()[b as int] > 0);
                    }
                    if need_met(*self, *summary) {
                        let b = choose|b: u8| #[trigger]
                            bytes.has(b) && summary.byte_counts.tally()[b as int] > 0;
                        assert(bytes.has(b) && seen.has(b));
                    }
                }
                met
            },
            ScanNeed::MinByteCounts(counts) => summary.byte_counts.contains_at_least(counts),
            ScanNeed::LineStartsWithAnyByte(bytes) => bytes.contains_any(summary.line_start_bytes),
            ScanNeed::LineEndsWithAnyByte(bytes) => bytes.contains_any(summary.line_end_bytes),
            ScanNeed::StartsWith(edge) => ScanNeed::edge_prefix_matches(&summary.prefix, edge),
            ScanNeed::EndsWith(edge) => ScanNeed::edge_suffix_matches(&summary.suffix, edge),
        }
    }

    fn edge_prefix_matches(have: &EdgeBytes, need: &EdgeBytes) -> (met: bool)
        ensures
            met == extends(Order::Prefix, need@, have@),
    {
        is_extension(Order::Prefix, need.as_slice(), have.as_slice())
    }

    fn edge_suffix_matches(have: &EdgeBytes, need: &EdgeBytes) -> (met: bool)
        ensures
            met == extends(Order::Suffix, need@, have@),
    {
        is_extension(Order::Suffix, need.as_slice(), have.as_slice())
    }

    fn summary_byte_set(summary: &ScanSummary) -> (set: ByteSet256)
        ensures
            forall|b: u8| #[trigger] set.has(b) == (summary.byte_counts.tally()[b as int] > 0),
    {
        let counts = summary.byte_counts.counts();
        let mut set = ByteSet256::default();
        let mut b: usize = 0;
        while b < 256
            invariant
                b <= 256,
                counts@ == summary.byte_counts.tally(),
                forall|k: u8| #[trigger]
                    set.has(k) == (k < b && summary.byte_counts.tally()[k as int] > 0),
            decreases 256 - b,
        {
            if counts[b] > 0 {
                set.insert(b as u8);
            }
            b = b + 1;
        }
        set
    }
}

/// One gram requirement lowered to index keys, exhaustive because an executor
/// must handle every variant.
#[derive(Debug, Clone, PartialEq, Eq)]
pub enum GramNeedle {
    /// One required key.
    Key(GramKey),
    /// Any one of these keys satisfies the requirement.
    AnyKey(Vec<GramKey>),
    /// Any one key, with an occurrence required at a word edge.
    AtWordEdge {
        /// The keys of which one must be present.
        keys: Vec<GramKey>,
        /// A non-word byte or the text start must precede some occurrence.
        starts: bool,
        /// A non-word byte or the text end must follow some occurrence.
        ends: bool,
        /// One occurrence must carry both word edges at once.
        whole: bool,
    },
    /// Any one key, with an occurrence required at a line edge.
    AtLineEdge {
        /// The keys of which one must be present.
        keys: Vec<GramKey>,
        /// A line break or the text start must precede some occurrence.
        starts: bool,
        /// A line break or the text end must follow some occurrence.
        ends: bool,
    },
}

/// The requirement behind a [`GramNeedle`].
pub ghost enum Needle {
    Key(GramKey),
    AnyKey(Seq<GramKey>),
    AtWordEdge { keys: Seq<GramKey>, starts: bool, ends: bool, whole: bool },
    AtLineEdge { keys: Seq<GramKey>, starts: bool, ends: bool },
}

impl View for GramNeedle {
    type V = Needle;

    open spec fn view(&self) -> Needle {
        match self {
            GramNeedle::Key(key) => Needle::Key(*key),
            GramNeedle::AnyKey(keys) => Needle::AnyKey(keys@),
            GramNeedle::AtWordEdge { keys, starts, ends, whole } => Needle::AtWordEdge {
                keys: keys@,
                starts: *starts,
                ends: *ends,
                whole: *whole,
            },
            GramNeedle::AtLineEdge { keys, starts, ends } => Needle::AtLineEdge {
                keys: keys@,
                starts: *starts,
                ends: *ends,
            },
        }
    }
}

/// Every key a needle may match.
pub open spec fn needle_keys(n: Needle) -> Seq<GramKey> {
    match n {
        Needle::Key(key) => seq![key],
        Needle::AnyKey(keys) => keys,
        Needle::AtWordEdge { keys, .. } => keys,
        Needle::AtLineEdge { keys, .. } => keys,
    }
}

/// A copy of the keys.
fn copy_keys(keys: &Vec<GramKey>) -> (copy: Vec<GramKey>)
    ensures
        copy@ == keys@,
{
    let mut copy: Vec<GramKey> = Vec::new();
    let mut i: usize = 0;
    while i < keys.len()
        invariant
            i <= keys@.len(),
            copy@ == keys@.take(i as int),
        decreases keys@.len() - i,
    {
        copy.push(keys[i]);
        i = i + 1;
        assert(copy@ =~= keys@.take(i as int));
    }
    assert(keys@.take(i as int) =~= keys@);
    copy
}

impl GramNeedle {
    /// Every key this needle may match.
    pub fn keys(&self) -> (keys: Vec<GramKey>)
        ensures
            keys@ == needle_keys(self@),
    {
        match self {
            GramNeedle::Key(key) => {
                let mut keys: Vec<GramKey> = Vec::new();
                keys.push(*key);
                assert(keys@ =~= seq![*key]);
                keys
            },
            GramNeedle::AnyKey(keys) => copy_keys(keys),
            GramNeedle::AtWordEdge { keys, .. } => copy_keys(keys),
            GramNeedle::AtLineEdge { keys, .. } => copy_keys(keys),
        }
    }
}

/// One node of a plan, exhaustive because an executor must handle every
/// variant.
#[derive(Debug, PartialEq, Eq)]
pub enum PlanExpr {
    /// No constraint, the index cannot narrow this query.
    All,
    /// No document can match.
    Nothing,
    /// Every gram, need and child must hold.
    AllOf {
        /// The grams that must all be present.
        grams: Vec<GramNeedle>,
        /// The summary conditions that must all hold.
        needs: Vec<ScanNeed>,
        /// The nested expressions that must all hold.
        children: Vec<PlanExpr>,
    },
    /// At least one gram, need or child must hold.
    AnyOf {
        /// The grams of which one must be present.
        grams: Vec<GramNeedle>,
        /// The summary conditions of which one must hold.
        needs: Vec<ScanNeed>,
        /// The nested expressions of which one must hold.
        children: Vec<PlanExpr>,
    },
}

/// The tree behind a [`PlanExpr`].
pub ghost enum Expr {
    All,
    Nothing,
    AllOf { grams: Seq<Needle>, needs: Seq<ScanNeed>, children: Seq<Expr> },
    AnyOf { grams: Seq<Needle>, needs: Seq<ScanNeed>, children: Seq<Expr> },
}

/// The requirements behind a list of needles.
pub open spec fn needles(grams: Seq<GramNeedle>) -> Seq<Needle> {
    Seq::new(grams.len(), |i: int| grams[i]@)
}

impl PlanExpr {
    /// The tree this expression stands for.
    pub open spec fn expr(self) -> Expr
        decreases self,
    {
        match self {
            PlanExpr::All => Expr::All,
            PlanExpr::Nothing => Expr::Nothing,
            PlanExpr::AllOf { grams, needs, children } => Expr::AllOf {
                grams: needles(grams@),
                needs: needs@,
                children: Seq::new(
                    children@.len(),
                    |i: int|
                        if 0 <= i < children@.len() {
                            children@[i].expr()
                        } else {
                            arbitrary()
                        },
                ),
            },
            PlanExpr::AnyOf { grams, needs, children } => Expr::AnyOf {
                grams: needles(grams@),
                needs: needs@,
                children: Seq::new(
                    children@.len(),
                    |i: int|
                        if 0 <= i < children@.len() {
                            children@[i].expr()
                        } else {
                            arbitrary()
                        },
                ),
            },
        }
    }
}

/// The nested expressions.
pub open spec fn expr_children(e: Expr) -> Seq<Expr> {
    match e {
        Expr::AllOf { children, .. } => children,
        Expr::AnyOf { children, .. } => children,
        _ => Seq::empty(),
    }
}

/// The gram needles in the whole tree.
pub open spec fn expr_weight(e: Expr) -> nat
    decreases e, expr_children(e).len() + 1,
{
    match e {
        Expr::AllOf { grams, needs, children } => grams.len() + children_weight(
            e,
            children.len() as int,
        ),
        Expr::AnyOf { grams, needs, children } => grams.len() + children_weight(
            e,
            children.len() as int,
        ),
        _ => 0,
    }
}

/// The gram needles in the first `n` nested expressions.
pub open spec fn children_weight(e: Expr, n: int) -> nat
    decreases e, n,
{
    match e {
        Expr::AllOf { grams, needs, children } => if n <= 0 || n > children.len() {
            0
        } else {
            children_weight(e, n - 1) + expr_weight(children[n - 1])
        },
        Expr::AnyOf { grams, needs, children } => if n <= 0 || n > children.len() {
            0
        } else {
            children_weight(e, n - 1) + expr_weight(children[n - 1])
        },
        _ => 0,
    }
}

impl PlanExpr {
    /// True when the index cannot narrow this expression.
    pub fn is_all(&self) -> (all: bool)
        ensures
            all == (self.expr() is All),
    {
        matches!(self, PlanExpr::All)
    }

    /// True when no document can match this expression.
    pub fn is_none(&self) -> (none: bool)
        ensures
            none == (self.expr() is Nothing),
    {
        matches!(self, PlanExpr::Nothing)
    }

    /// The gram needles in this tree.
    pub fn gram_count(&self) -> (count: usize)
        ensures
            count == clamp(expr_weight(self.expr()) as int),
        decreases self,
    {
        match self {
            PlanExpr::All => 0,
            PlanExpr::Nothing => 0,
            PlanExpr::AllOf { grams, needs: _, children } => {
                let mut count: usize = 0;
                let mut i: usize = 0;
                while i < children.len()
                    invariant
                        i <= children@.len(),
                        self matches PlanExpr::AllOf { grams: _, needs: _, children: c } && c == children,
                        count == clamp(children_weight(self.expr(), i as int) as int),
                    decreases children@.len() - i,
                {
                    let more: usize = children[i].gram_count();
                    assert(expr_children(self.expr())[i as int] == children@[i as int].expr());
                    count = add_to_max(count, more);
                    i = i + 1;
                }
                add_to_max(grams.len(), count)
            },
            PlanExpr::AnyOf { grams, needs: _, children } => {
                let mut count: usize = 0;
                let mut i: usize = 0;
                while i < children.len()
                    invariant
                        i <= children@.len(),
                        self matches PlanExpr::AnyOf { grams: _, needs: _, children: c } && c == children,
                        count == clamp(children_weight(self.expr(), i as int) as int),
                    decreases children@.len() - i,
                {
                    let more: usize = children[i].gram_count();
                    assert(expr_children(self.expr())[i as int] == children@[i as int].expr());
                    count = add_to_max(count, more);
                    i = i + 1;
                }
                add_to_max(grams.len(), count)
            },
        }
    }
}

/// A candidate plan every document the regex matches satisfies, which the
/// verifier narrows.
#[derive(Debug, PartialEq, Eq)]
pub struct QueryPlan {
    root: PlanExpr,
}

impl View for QueryPlan {
    type V = Expr;

    closed spec fn view(&self) -> Expr {
        self.root.expr()
    }
}

impl QueryPlan {
    /// A plan from its expression tree.
    pub fn new(root: PlanExpr) -> (plan: QueryPlan)
        ensures
            plan@ == root.expr(),
    {
        QueryPlan { root }
    }

    /// The root expression.
    pub fn root(&self) -> (root: &PlanExpr)
        ensures
            root.expr() == self@,
    {
        &self.root
    }

    /// True when the index cannot narrow this query.
    pub fn is_all(&self) -> (all: bool)
        ensures
            all == (self@ is All),
    {
        self.root.is_all()
    }

    /// True when no document can match.
    pub fn is_none(&self) -> (none: bool)
        ensures
            none == (self@ is Nothing),
    {
        self.root.is_none()
    }

    /// The gram needles in the whole tree.
    pub fn gram_count(&self) -> (count: usize)
        ensures
            count == clamp(expr_weight(self@) as int),
    {
        self.root.gram_count()
    }
}

/// What an executor asks of an index and of a scan summary.
pub ghost struct Index {
    /// The key is in the index.
    pub key: spec_fn(GramKey) -> bool,
    /// The key occurs at a word edge: at a start, at an end, at both at once.
    pub word_edge: spec_fn(GramKey, bool, bool, bool) -> bool,
    /// The key occurs at a line edge: at a start, at an end.
    pub line_edge: spec_fn(GramKey, bool, bool) -> bool,
    /// The summary condition holds.
    pub need: spec_fn(ScanNeed) -> bool,
}

/// One of the keys is in the index.
pub open spec fn some_key(keys: Seq<GramKey>, ix: Index) -> bool {
    exists|k: GramKey| #[trigger] keys.contains(k) && (ix.key)(k)
}

/// One of the keys occurs at the word edges asked for.
pub open spec fn some_word_edge(
    keys: Seq<GramKey>,
    starts: bool,
    ends: bool,
    whole: bool,
    ix: Index,
) -> bool {
    exists|k: GramKey| #[trigger] keys.contains(k) && (ix.word_edge)(k, starts, ends, whole)
}

/// One of the keys occurs at the line edges asked for.
pub open spec fn some_line_edge(keys: Seq<GramKey>, starts: bool, ends: bool, ix: Index) -> bool {
    exists|k: GramKey| #[trigger] keys.contains(k) && (ix.line_edge)(k, starts, ends)
}

/// The index satisfies the requirement.
pub open spec fn needle_holds(n: Needle, ix: Index) -> bool {
    match n {
        Needle::Key(key) => (ix.key)(key),
        Needle::AnyKey(keys) => some_key(keys, ix),
        Needle::AtWordEdge { keys, starts, ends, whole } => some_word_edge(
            keys,
            starts,
            ends,
            whole,
            ix,
        ),
        Needle::AtLineEdge { keys, starts, ends } => some_line_edge(keys, starts, ends, ix),
    }
}

/// The index satisfies every requirement.
pub open spec fn all_needles_hold(grams: Seq<Needle>, ix: Index) -> bool {
    forall|i: int| 0 <= i < grams.len() ==> needle_holds(#[trigger] grams[i], ix)
}

/// The index satisfies one of the requirements.
pub open spec fn some_needle_holds(grams: Seq<Needle>, ix: Index) -> bool {
    exists|i: int| 0 <= i < grams.len() && needle_holds(#[trigger] grams[i], ix)
}

/// Every summary condition holds.
pub open spec fn all_needs_hold(needs: Seq<ScanNeed>, ix: Index) -> bool {
    forall|i: int| 0 <= i < needs.len() ==> (ix.need)(#[trigger] needs[i])
}

/// One of the summary conditions holds.
pub open spec fn some_need_holds(needs: Seq<ScanNeed>, ix: Index) -> bool {
    exists|i: int| 0 <= i < needs.len() && (ix.need)(#[trigger] needs[i])
}

/// The index satisfies the expression.
pub open spec fn expr_holds(e: Expr, ix: Index) -> bool
    decreases e,
{
    match e {
        Expr::All => true,
        Expr::Nothing => false,
        Expr::AllOf { grams, needs, children } => {
            &&& all_needles_hold(grams, ix)
            &&& all_needs_hold(needs, ix)
            &&& forall|i: int| 0 <= i < children.len() ==> expr_holds(#[trigger] children[i], ix)
        },
        Expr::AnyOf { grams, needs, children } => {
            ||| some_needle_holds(grams, ix)
            ||| some_need_holds(needs, ix)
            ||| exists|i: int| 0 <= i < children.len() && expr_holds(#[trigger] children[i], ix)
        },
    }
}

} // verus!
