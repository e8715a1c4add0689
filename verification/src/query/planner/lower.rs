//! Lowering an analyzed query into its public expression.

use vstd::prelude::*;

use crate::hashing::{lemma_unkeyed, space_hash, HashKey, FOLD_SALT};
use crate::query::algebra::{Op, Query, Tree};
use crate::query::analyze::looks::is_word_byte;
use crate::query::edges::{is_line_look, Edge};
use crate::query::flush::{extends, is_extension};
use crate::query::gram::{same_bytes, Gram};
use crate::query::hir::{is_word, Assertion, Regex};
use crate::query::order::Order;
use crate::query::plan::{needles, Expr, GramKey, GramNeedle, Needle, PlanExpr, ScanNeed};
use crate::query::strings::StringSet;

verus! {

/// A literal that whole-pattern line anchors pin to the sides they bind.
pub ghost struct Anchored {
    pub literal: Seq<u8>,
    pub starts: bool,
    pub ends: bool,
}

/// Whole-pattern shapes that pin gram occurrences to word or line edges.
pub ghost struct Shapes {
    pub word: Option<Seq<u8>>,
    pub line: Option<Anchored>,
}

/// The expression inside any capturing groups around it.
pub open spec fn unwrapped(h: Regex) -> Regex
    decreases h,
{
    match h {
        Regex::Capture(sub) => unwrapped(*sub),
        _ => h,
    }
}

/// A word boundary.
pub open spec fn word_look(h: Regex) -> bool {
    h matches Regex::Look(look) && (look == Assertion::WordAscii || look == Assertion::WordUnicode)
}

/// An anchor to the line's edge.
pub open spec fn line_look(h: Regex, edge: Edge) -> bool {
    h matches Regex::Look(look) && is_line_look(edge, look)
}

/// The literal of a pattern that is a word-bounded literal.
pub open spec fn word_literal(h: Regex) -> Option<Seq<u8>> {
    match h {
        Regex::Concat(subs) => if subs@.len() == 3 && word_look(subs@[0]) && word_look(subs@[2]) {
            match unwrapped(subs@[1]) {
                Regex::Literal(bytes) => if bytes@.len() > 0 && is_word(bytes@[0]) && is_word(
                    bytes@.last(),
                ) {
                    Some(bytes@)
                } else {
                    None
                },
                _ => None,
            }
        } else {
            None
        },
        _ => None,
    }
}

/// The first part is an anchor to a line's start.
pub open spec fn start_anchored(subs: Seq<Regex>) -> bool {
    subs.len() > 0 && line_look(subs[0], Edge::Start)
}

/// A part behind the start anchor is last, and an anchor to a line's end.
pub open spec fn end_anchored(subs: Seq<Regex>) -> bool {
    subs.len() > (if start_anchored(subs) {
        1int
    } else {
        0int
    }) && line_look(subs.last(), Edge::End)
}

/// The literal of a pattern that is a line-anchored literal.
pub open spec fn line_literal(h: Regex) -> Option<Anchored> {
    match h {
        Regex::Concat(subs) => {
            let starts = start_anchored(subs@);
            let ends = end_anchored(subs@);
            let lo = if starts {
                1int
            } else {
                0int
            };
            let hi = if ends {
                subs@.len() - 1
            } else {
                subs@.len() as int
            };
            if hi - lo == 1 && (starts || ends) {
                match unwrapped(subs@[lo]) {
                    Regex::Literal(bytes) => if bytes@.len() > 0 {
                        Some(Anchored { literal: bytes@, starts, ends })
                    } else {
                        None
                    },
                    _ => None,
                }
            } else {
                None
            }
        },
        _ => None,
    }
}

/// The shapes of a pattern; a folded plan has none.
pub open spec fn shapes_of(h: Regex, fold: bool) -> Shapes {
    if fold {
        Shapes { word: None, line: None }
    } else {
        Shapes { word: word_literal(h), line: line_literal(h) }
    }
}

/// The key of a gram in the primary space.
pub open spec fn raw_key(g: Seq<u8>) -> GramKey {
    GramKey(space_hash(g, 0))
}

/// The key of a gram in the folded space.
pub open spec fn folded_key(g: Seq<u8>) -> GramKey {
    GramKey(space_hash(g, FOLD_SALT))
}

/// An ASCII letter.
pub open spec fn is_letter(b: u8) -> bool {
    (0x41 <= b <= 0x5A) || (0x61 <= b <= 0x7A)
}

/// One of the bytes is an ASCII letter.
pub open spec fn has_letter(g: Seq<u8>) -> bool {
    exists|i: int| 0 <= i < g.len() && is_letter(#[trigger] g[i])
}

/// The keys a gram may be indexed under.
pub open spec fn keys_of(g: Seq<u8>, fold: bool) -> Seq<GramKey> {
    if !fold || !has_letter(g) {
        seq![raw_key(g)]
    } else {
        seq![raw_key(g), folded_key(g)]
    }
}

/// The needle of a gram.
pub open spec fn needle_of(g: Seq<u8>, fold: bool, shapes: Shapes) -> Needle {
    let keys = keys_of(g, fold);
    match edge_needle_of(g, shapes.word, keys) {
        Some(needle) => needle,
        None => match line_needle_of(g, shapes.line, keys) {
            Some(needle) => needle,
            None => if keys.len() == 1 {
                Needle::Key(raw_key(g))
            } else {
                Needle::AnyKey(keys)
            },
        },
    }
}

/// The needle of a gram at an edge of a word-bounded literal.
pub open spec fn edge_needle_of(
    g: Seq<u8>,
    word: Option<Seq<u8>>,
    keys: Seq<GramKey>,
) -> Option<Needle> {
    match word {
        Some(literal) => {
            let starts = extends(Order::Prefix, g, literal);
            let ends = extends(Order::Suffix, g, literal);
            if starts || ends {
                Some(Needle::AtWordEdge { keys, starts, ends, whole: g == literal })
            } else {
                None
            }
        },
        None => None,
    }
}

/// The needle of a gram at an edge of a line-anchored literal.
pub open spec fn line_needle_of(
    g: Seq<u8>,
    line: Option<Anchored>,
    keys: Seq<GramKey>,
) -> Option<Needle> {
    match line {
        Some(anchors) => {
            let starts = anchors.starts && extends(Order::Prefix, g, anchors.literal);
            let ends = anchors.ends && extends(Order::Suffix, g, anchors.literal);
            if starts || ends {
                Some(Needle::AtLineEdge { keys, starts, ends })
            } else {
                None
            }
        },
        None => None,
    }
}

/// The needles of a set of grams.
pub open spec fn needles_of(grams: Seq<Seq<u8>>, fold: bool, shapes: Shapes) -> Seq<Needle> {
    Seq::new(grams.len(), |i: int| needle_of(grams[i], fold, shapes))
}

/// The public expression of a query.
pub open spec fn expr_of(q: Tree, fold: bool, shapes: Shapes) -> Expr
    decreases q,
{
    let children = Seq::new(
        q.sub.len(),
        |i: int|
            if 0 <= i < q.sub.len() {
                expr_of(q.sub[i], fold, shapes)
            } else {
                arbitrary()
            },
    );
    match q.op {
        Op::All => Expr::All,
        Op::Nothing => Expr::Nothing,
        Op::And => Expr::AllOf {
            grams: needles_of(q.grams, fold, shapes),
            needs: Seq::empty(),
            children,
        },
        Op::Or => Expr::AnyOf {
            grams: needles_of(q.grams, fold, shapes),
            needs: Seq::empty(),
            children,
        },
    }
}

/// A literal that whole-pattern line anchors pin to the sides they bind.
struct LineAnchored<'a> {
    literal: &'a [u8],
    starts: bool,
    ends: bool,
}

impl<'a> LineAnchored<'a> {
    spec fn anchored(self) -> Anchored {
        Anchored { literal: self.literal@, starts: self.starts, ends: self.ends }
    }
}

/// Whole-pattern shapes that pin gram occurrences to word or line edges.
struct EdgeShapes<'a> {
    word: Option<&'a [u8]>,
    line: Option<LineAnchored<'a>>,
}

impl<'a> EdgeShapes<'a> {
    spec fn shapes(self) -> Shapes {
        Shapes {
            word: match self.word {
                Some(literal) => Some(literal@),
                None => None,
            },
            line: match self.line {
                Some(line) => Some(line.anchored()),
                None => None,
            },
        }
    }

    fn from_hir(hir: &'a Regex) -> (shapes: EdgeShapes<'a>)
        ensures
            shapes.shapes() == shapes_of(*hir, false),
    {
        EdgeShapes { word: word_edged_literal(hir), line: line_anchored_literal(hir) }
    }
}

/// Lower an analyzed query into its public expression.
pub fn query(analyzed: &Query, fold: bool, hir: &Regex) -> (expr: PlanExpr)
    ensures
        expr.expr() == expr_of(analyzed.tree(), fold, shapes_of(*hir, fold)),
{
    let edges = if fold {
        EdgeShapes { word: None, line: None }
    } else {
        EdgeShapes::from_hir(hir)
    };
    into_public_expr(analyzed, fold, &edges)
}

fn into_public_expr(query: &Query, fold: bool, edges: &EdgeShapes<'_>) -> (expr: PlanExpr)
    ensures
        expr.expr() == expr_of(query.tree(), fold, edges.shapes()),
    decreases query, 1int,
{
    match query.op {
        Op::All => PlanExpr::All,
        Op::Nothing => PlanExpr::Nothing,
        Op::And => {
            let grams = public_grams(&query.grams, fold, edges);
            let needs: Vec<ScanNeed> = Vec::new();
            let children = public_children(query, fold, edges);
            let expr = PlanExpr::AllOf { grams, needs, children };
            assert(needs@ =~= Seq::<ScanNeed>::empty());
            assert(expr.expr()->AllOf_children =~= expr_of(
                query.tree(),
                fold,
                edges.shapes(),
            )->AllOf_children);
            expr
        },
        Op::Or => {
            let grams = public_grams(&query.grams, fold, edges);
            let needs: Vec<ScanNeed> = Vec::new();
            let children = public_children(query, fold, edges);
            let expr = PlanExpr::AnyOf { grams, needs, children };
            assert(needs@ =~= Seq::<ScanNeed>::empty());
            assert(expr.expr()->AnyOf_children =~= expr_of(
                query.tree(),
                fold,
                edges.shapes(),
            )->AnyOf_children);
            expr
        },
    }
}

fn public_grams(grams: &StringSet, fold: bool, edges: &EdgeShapes<'_>) -> (out: Vec<GramNeedle>)
    ensures
        needles(out@) == needles_of(grams@, fold, edges.shapes()),
{
    let mut out: Vec<GramNeedle> = Vec::new();
    let mut i: usize = 0;
    let n: usize = grams.len();
    while i < n
        invariant
            i <= n == grams@.len(),
            out@.len() == i,
            forall|k: int|
                0 <= k < i ==> (#[trigger] out@[k])@ == needle_of(grams@[k], fold, edges.shapes()),
        decreases n - i,
    {
        let needle = needle_for(grams.at(i), fold, edges);
        out.push(needle);
        i = i + 1;
    }
    assert(needles(out@) =~= needles_of(grams@, fold, edges.shapes()));
    out
}

fn public_children(query: &Query, fold: bool, edges: &EdgeShapes<'_>) -> (out: Vec<PlanExpr>)
    ensures
        out@.len() == query.sub@.len(),
        forall|k: int|
            0 <= k < out@.len() ==> (#[trigger] out@[k]).expr() == expr_of(
                query.sub@[k].tree(),
                fold,
                edges.shapes(),
            ),
    decreases query, 0int,
{
    let mut out: Vec<PlanExpr> = Vec::new();
    let mut i: usize = 0;
    while i < query.sub.len()
        invariant
            i <= query.sub@.len(),
            out@.len() == i,
            forall|k: int|
                0 <= k < i ==> (#[trigger] out@[k]).expr() == expr_of(
                    query.sub@[k].tree(),
                    fold,
                    edges.shapes(),
                ),
        decreases query.sub@.len() - i,
    {
        let expr = into_public_expr(&query.sub[i], fold, edges);
        out.push(expr);
        i = i + 1;
    }
    out
}

fn holds_letter(bytes: &[u8]) -> (found: bool)
    ensures
        found == has_letter(bytes@),
{
    let mut i: usize = 0;
    while i < bytes.len()
        invariant
            i <= bytes@.len(),
            forall|k: int| 0 <= k < i ==> !is_letter(#[trigger] bytes@[k]),
        decreases bytes@.len() - i,
    {
        let b: u8 = bytes[i];
        if (0x41 <= b && b <= 0x5A) || (0x61 <= b && b <= 0x7A) {
            return true;
        }
        i = i + 1;
    }
    false
}

/// The keys a gram may be indexed under.
fn keys_for(gram: &Gram, fold: bool) -> (keys: Vec<GramKey>)
    ensures
        keys@ == keys_of(gram@, fold),
{
    let key = HashKey::unkeyed();
    proof {
        lemma_unkeyed();
        assert(0u64 ^ FOLD_SALT == FOLD_SALT) by (bit_vector)
            requires
                FOLD_SALT == 0xF01D_5A17_C0DE_D00D,
        ;
    }
    let mut keys: Vec<GramKey> = Vec::new();
    keys.push(GramKey(key.hash_bytes(gram.as_bytes())));
    if fold && holds_letter(gram.as_bytes()) {
        keys.push(GramKey(key.folded().hash_bytes(gram.as_bytes())));
    }
    assert(keys@ =~= keys_of(gram@, fold));
    keys
}

fn needle_for(gram: &Gram, fold: bool, edges: &EdgeShapes<'_>) -> (needle: GramNeedle)
    ensures
        needle@ == needle_of(gram@, fold, edges.shapes()),
{
    let keys = keys_for(gram, fold);
    if let Some((starts, ends, whole)) = edge_needle(gram, edges.word) {
        return GramNeedle::AtWordEdge { keys, starts, ends, whole };
    }
    if let Some((starts, ends)) = line_edge_needle(gram, &edges.line) {
        return GramNeedle::AtLineEdge { keys, starts, ends };
    }
    if keys.len() == 1 {
        GramNeedle::Key(keys[0])
    } else {
        GramNeedle::AnyKey(keys)
    }
}

/// The word edges that a gram of a word-bounded literal is pinned to: whether
/// it starts the literal, ends it, and is all of it.
fn edge_needle(gram: &Gram, literal: Option<&[u8]>) -> (edges: Option<(bool, bool, bool)>)
    ensures
        edges == (match literal {
            Some(literal) => {
                let starts = extends(Order::Prefix, gram@, literal@);
                let ends = extends(Order::Suffix, gram@, literal@);
                if starts || ends {
                    Some((starts, ends, gram@ == literal@))
                } else {
                    None
                }
            },
            None => None,
        }),
{
    match literal {
        Some(literal) => {
            let starts = is_extension(Order::Prefix, gram.as_bytes(), literal);
            let ends = is_extension(Order::Suffix, gram.as_bytes(), literal);
            if starts || ends {
                Some((starts, ends, same_bytes(gram.as_bytes(), literal)))
            } else {
                None
            }
        },
        None => None,
    }
}

/// The line edges that a gram of a line-anchored literal is pinned to.
fn line_edge_needle(gram: &Gram, anchors: &Option<LineAnchored<'_>>) -> (edges: Option<
    (bool, bool),
>)
    ensures
        edges == (match anchors {
            Some(anchors) => {
                let starts = anchors.starts && extends(Order::Prefix, gram@, anchors.literal@);
                let ends = anchors.ends && extends(Order::Suffix, gram@, anchors.literal@);
                if starts || ends {
                    Some((starts, ends))
                } else {
                    None
                }
            },
            None => None,
        }),
{
    match anchors {
        Some(anchors) => {
            let starts = anchors.starts && is_extension(
                Order::Prefix,
                gram.as_bytes(),
                anchors.literal,
            );
            let ends = anchors.ends && is_extension(
                Order::Suffix,
                gram.as_bytes(),
                anchors.literal,
            );
            if starts || ends {
                Some((starts, ends))
            } else {
                None
            }
        },
        None => None,
    }
}

/// Literal and anchors of a whole-pattern line-anchored shape.
fn line_anchored_literal(hir: &Regex) -> (line: Option<LineAnchored<'_>>)
    ensures
        (match line {
            Some(line) => Some(line.anchored()),
            None => None,
        }) == line_literal(*hir),
{
    match hir {
        Regex::Concat(subs) => {
            let starts = subs.len() > 0 && is_line_start_look(&subs[0]);
            let lo: usize = if starts {
                1
            } else {
                0
            };
            let ends = subs.len() > lo && is_line_end_look(&subs[subs.len() - 1]);
            let hi: usize = if ends {
                subs.len() - 1
            } else {
                subs.len()
            };
            if hi != lo + 1 || !(starts || ends) {
                return None;
            }
            match unwrap_captures(&subs[lo]) {
                Regex::Literal(bytes) => if bytes.len() > 0 {
                    Some(LineAnchored { literal: bytes.as_slice(), starts, ends })
                } else {
                    None
                },
                _ => None,
            }
        },
        _ => None,
    }
}

fn is_line_start_look(hir: &Regex) -> (anchor: bool)
    ensures
        anchor == line_look(*hir, Edge::Start),
{
    match hir {
        Regex::Look(look) => matches!(look, Assertion::Start | Assertion::StartLF),
        _ => false,
    }
}

fn is_line_end_look(hir: &Regex) -> (anchor: bool)
    ensures
        anchor == line_look(*hir, Edge::End),
{
    match hir {
        Regex::Look(look) => matches!(look, Assertion::End | Assertion::EndLF),
        _ => false,
    }
}

/// Literal in a whole-pattern word-bounded shape.
fn word_edged_literal(hir: &Regex) -> (literal: Option<&[u8]>)
    ensures
        (match literal {
            Some(literal) => Some(literal@),
            None => None,
        }) == word_literal(*hir),
{
    match hir {
        Regex::Concat(subs) => {
            if subs.len() != 3 || !is_word_look(&subs[0]) || !is_word_look(&subs[2]) {
                return None;
            }
            match unwrap_captures(&subs[1]) {
                Regex::Literal(bytes) => if bytes.len() > 0 && is_word_byte(bytes[0])
                    && is_word_byte(bytes[bytes.len() - 1]) {
                    Some(bytes.as_slice())
                } else {
                    None
                },
                _ => None,
            }
        },
        _ => None,
    }
}

fn is_word_look(hir: &Regex) -> (look: bool)
    ensures
        look == word_look(*hir),
{
    match hir {
        Regex::Look(look) => matches!(look, Assertion::WordAscii | Assertion::WordUnicode),
        _ => false,
    }
}

fn unwrap_captures(hir: &Regex) -> (inner: &Regex)
    ensures
        *inner == unwrapped(*hir),
    decreases hir,
{
    match hir {
        Regex::Capture(sub) => unwrap_captures(sub),
        _ => hir,
    }
}

} // verus!
