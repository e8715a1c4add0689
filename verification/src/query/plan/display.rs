//! Plans as text.

use vstd::prelude::*;
use vstd::string::*;

use crate::bytes::{ByteSet256, EdgeBytes, SaturatingByteCounts256};
use crate::query::plan::{Expr, GramKey, GramNeedle, Needle, PlanExpr, QueryPlan, ScanNeed};
use crate::text::{decimal, hex_byte, push_decimal, push_hex_byte};

verus! {

/// The parts with a separator between them.
pub open spec fn joined_text(parts: Seq<Seq<char>>, sep: Seq<char>) -> Seq<char>
    decreases parts.len(),
{
    if parts.len() == 0 {
        Seq::empty()
    } else if parts.len() == 1 {
        parts[0]
    } else {
        joined_text(parts.drop_last(), sep) + sep + parts.last()
    }
}

/// A flag.
pub open spec fn flag_text(on: bool) -> Seq<char> {
    if on {
        "true"@
    } else {
        "false"@
    }
}

/// A key.
pub open spec fn key_text(key: GramKey) -> Seq<char> {
    "GramKey("@ + decimal(key.0 as nat) + ")"@
}

/// A list of keys.
pub open spec fn keys_text(keys: Seq<GramKey>) -> Seq<char> {
    "["@ + joined_text(Seq::new(keys.len(), |i: int| key_text(keys[i])), ", "@) + "]"@
}

/// A gram needle.
pub open spec fn needle_text(n: Needle) -> Seq<char> {
    match n {
        Needle::Key(key) => "Key("@ + key_text(key) + ")"@,
        Needle::AnyKey(keys) => "AnyKey("@ + keys_text(keys) + ")"@,
        Needle::AtWordEdge { keys, starts, ends, whole } => "AtWordEdge { keys: "@ + keys_text(keys)
            + sides_text(starts, ends) + (", whole: "@ + flag_text(whole) + " }"@),
        Needle::AtLineEdge { keys, starts, ends } => "AtLineEdge { keys: "@ + keys_text(keys)
            + sides_text(starts, ends) + " }"@,
    }
}

/// The edges that a needle is pinned to.
pub open spec fn sides_text(starts: bool, ends: bool) -> Seq<char> {
    ", starts: "@ + flag_text(starts) + ", ends: "@ + flag_text(ends)
}

/// A byte set, by its words.
pub open spec fn byte_set_text(words: Seq<u64>) -> Seq<char> {
    "ByteSet256 { words: ["@ + joined_text(
        Seq::new(words.len(), |i: int| decimal(words[i] as nat)),
        ", "@,
    ) + "] }"@
}

/// The bytes of an edge in the room it has for them.
pub open spec fn padded(edge: Seq<u8>) -> Seq<u8> {
    Seq::new(
        EdgeBytes::CAPACITY as nat,
        |i: int|
            if i < edge.len() {
                edge[i]
            } else {
                0u8
            },
    )
}

/// An edge.
pub open spec fn edge_text(edge: Seq<u8>) -> Seq<char> {
    "EdgeBytes { len: "@ + decimal(edge.len()) + ", bytes: ["@ + joined_text(
        Seq::new(EdgeBytes::CAPACITY as nat, |i: int| decimal(padded(edge)[i] as nat)),
        ", "@,
    ) + "] }"@
}

/// The counts above zero among the first `n` bytes.
pub open spec fn count_texts(tally: Seq<u8>, n: int) -> Seq<Seq<char>>
    decreases n,
{
    if n <= 0 {
        Seq::empty()
    } else if tally[n - 1] == 0 {
        count_texts(tally, n - 1)
    } else {
        count_texts(tally, n - 1).push(
            hex_byte((n - 1) as u8) + ":"@ + decimal(tally[n - 1] as nat),
        )
    }
}

/// A summary condition.
pub open spec fn need_text(need: ScanNeed) -> Seq<char> {
    match need {
        ScanNeed::MinByteLen(n) => "MinByteLen("@ + decimal(n as nat) + ")"@,
        ScanNeed::MinLongestLineLen(n) => "MinLongestLineLen("@ + decimal(n as nat) + ")"@,
        ScanNeed::ContainsAnyByte(bytes) => "ContainsAnyByte("@ + byte_set_text(bytes.bits()) + ")"@,
        ScanNeed::MinByteCounts(counts) => "MinByteCounts("@ + joined_text(
            count_texts(counts.tally(), 256),
            ","@,
        ) + ")"@,
        ScanNeed::LineStartsWithAnyByte(bytes) => "LineStartsWithAnyByte("@ + byte_set_text(
            bytes.bits(),
        ) + ")"@,
        ScanNeed::LineEndsWithAnyByte(bytes) => "LineEndsWithAnyByte("@ + byte_set_text(
            bytes.bits(),
        ) + ")"@,
        ScanNeed::StartsWith(edge) => "StartsWith("@ + edge_text(edge@) + ")"@,
        ScanNeed::EndsWith(edge) => "EndsWith("@ + edge_text(edge@) + ")"@,
    }
}

/// The texts of gram needles.
pub open spec fn needle_texts(grams: Seq<Needle>) -> Seq<Seq<char>> {
    Seq::new(grams.len(), |i: int| needle_text(grams[i]))
}

/// The texts of summary conditions.
pub open spec fn need_texts(needs: Seq<ScanNeed>) -> Seq<Seq<char>> {
    Seq::new(needs.len(), |i: int| need_text(needs[i]))
}

/// A plan: `+` for all documents, `-` for none; all conditions one after the
/// other with spaces between them, alternatives with bars between them and
/// nested ones in brackets.
pub open spec fn expr_text(e: Expr) -> Seq<char>
    decreases e, 1int,
{
    match e {
        Expr::All => "+"@,
        Expr::Nothing => "-"@,
        Expr::AllOf { grams, needs, children } => joined_text(
            needle_texts(grams) + need_texts(needs) + children_texts(e, false),
            " "@,
        ),
        Expr::AnyOf { grams, needs, children } => joined_text(
            needle_texts(grams) + need_texts(needs) + children_texts(e, true),
            "|"@,
        ),
    }
}

/// The texts of the nested expressions, in brackets or not.
pub open spec fn children_texts(e: Expr, bracketed: bool) -> Seq<Seq<char>>
    decreases e, 0int,
{
    match e {
        Expr::AllOf { grams, needs, children } => Seq::new(
            children.len(),
            |i: int|
                if 0 <= i < children.len() {
                    child_text(expr_text(children[i]), bracketed)
                } else {
                    arbitrary()
                },
        ),
        Expr::AnyOf { grams, needs, children } => Seq::new(
            children.len(),
            |i: int|
                if 0 <= i < children.len() {
                    child_text(expr_text(children[i]), bracketed)
                } else {
                    arbitrary()
                },
        ),
        _ => Seq::empty(),
    }
}

/// A nested expression's text, in brackets or not.
pub open spec fn child_text(text: Seq<char>, bracketed: bool) -> Seq<char> {
    if bracketed {
        "("@ + text + ")"@
    } else {
        text
    }
}

/// Put a separator before every part but the first.
pub(crate) fn delimit(out: &mut String, first: bool, sep: &str)
    ensures
        final(out)@ == if first {
            old(out)@
        } else {
            old(out)@ + sep@
        },
{
    if !first {
        out.append(sep);
    }
}

/// One more part behind those before it.
pub proof fn lemma_joined(parts: Seq<Seq<char>>, n: int, sep: Seq<char>)
    requires
        0 <= n < parts.len(),
    ensures
        joined_text(parts.take(n + 1), sep) == if n == 0 {
            parts[0]
        } else {
            joined_text(parts.take(n), sep) + sep + parts[n]
        },
        joined_text(parts.take(0), sep) == Seq::<char>::empty(),
{
    assert(parts.take(n + 1).drop_last() =~= parts.take(n));
    assert(parts.take(n + 1).last() == parts[n]);
}

fn push_flag(out: &mut String, on: bool)
    ensures
        final(out)@ == old(out)@ + flag_text(on),
{
    if on {
        out.append("true");
    } else {
        out.append("false");
    }
}

fn push_key(out: &mut String, key: GramKey)
    ensures
        final(out)@ == old(out)@ + key_text(key),
{
    out.append("GramKey(");
    push_decimal(out, key.0);
    out.append(")");
    assert(out@ =~= old(out)@ + key_text(key));
}

fn push_keys(out: &mut String, keys: &Vec<GramKey>)
    ensures
        final(out)@ == old(out)@ + keys_text(keys@),
{
    let ghost parts = Seq::new(keys@.len(), |i: int| key_text(keys@[i]));
    out.append("[");
    let ghost start = out@;
    let mut i: usize = 0;
    assert(parts.take(0) =~= Seq::<Seq<char>>::empty());
    assert(out@ =~= start + joined_text(parts.take(0), ", "@));
    while i < keys.len()
        invariant
            i <= keys@.len() == parts.len(),
            parts == Seq::new(keys@.len(), |i: int| key_text(keys@[i])),
            out@ == start + joined_text(parts.take(i as int), ", "@),
        decreases keys@.len() - i,
    {
        proof {
            lemma_joined(parts, i as int, ", "@);
        }
        delimit(out, i == 0, ", ");
        push_key(out, keys[i]);
        i = i + 1;
        assert(out@ =~= start + joined_text(parts.take(i as int), ", "@));
    }
    assert(parts.take(i as int) =~= parts);
    out.append("]");
    assert(out@ =~= old(out)@ + keys_text(keys@));
}

fn push_sides(out: &mut String, starts: bool, ends: bool)
    ensures
        final(out)@ == old(out)@ + sides_text(starts, ends),
{
    out.append(", starts: ");
    push_flag(out, starts);
    out.append(", ends: ");
    push_flag(out, ends);
    assert(out@ =~= old(out)@ + sides_text(starts, ends));
}

fn push_whole(out: &mut String, whole: bool)
    ensures
        final(out)@ == old(out)@ + (", whole: "@ + flag_text(whole) + " }"@),
{
    out.append(", whole: ");
    push_flag(out, whole);
    out.append(" }");
    assert(out@ =~= old(out)@ + (", whole: "@ + flag_text(whole) + " }"@));
}

fn push_needle(out: &mut String, needle: &GramNeedle)
    ensures
        final(out)@ == old(out)@ + needle_text(needle@),
{
    match needle {
        GramNeedle::Key(key) => {
            out.append("Key(");
            push_key(out, *key);
            out.append(")");
            assert(out@ =~= old(out)@ + ("Key("@ + key_text(*key) + ")"@));
        },
        GramNeedle::AnyKey(keys) => {
            out.append("AnyKey(");
            push_keys(out, keys);
            out.append(")");
            assert(out@ =~= old(out)@ + ("AnyKey("@ + keys_text(keys@) + ")"@));
        },
        GramNeedle::AtWordEdge { keys, starts, ends, whole } => {
            out.append("AtWordEdge { keys: ");
            push_keys(out, keys);
            push_sides(out, *starts, *ends);
            push_whole(out, *whole);
            assert(out@ =~= old(out)@ + ("AtWordEdge { keys: "@ + keys_text(keys@) + sides_text(
                *starts,
                *ends,
            ) + (", whole: "@ + flag_text(*whole) + " }"@)));
        },
        GramNeedle::AtLineEdge { keys, starts, ends } => {
            out.append("AtLineEdge { keys: ");
            push_keys(out, keys);
            push_sides(out, *starts, *ends);
            out.append(" }");
            assert(out@ =~= old(out)@ + ("AtLineEdge { keys: "@ + keys_text(keys@) + sides_text(
                *starts,
                *ends,
            ) + " }"@));
        },
    }
}

fn push_byte_set(out: &mut String, set: &ByteSet256)
    ensures
        final(out)@ == old(out)@ + byte_set_text(set.bits()),
{
    let words = set.words();
    let ghost parts = Seq::new(words@.len(), |i: int| decimal(words@[i] as nat));
    out.append("ByteSet256 { words: [");
    let ghost start = out@;
    let mut i: usize = 0;
    assert(parts.take(0) =~= Seq::<Seq<char>>::empty());
    assert(out@ =~= start + joined_text(parts.take(0), ", "@));
    while i < 4
        invariant
            i <= 4 == parts.len(),
            words@.len() == 4,
            parts == Seq::new(words@.len(), |i: int| decimal(words@[i] as nat)),
            out@ == start + joined_text(parts.take(i as int), ", "@),
        decreases 4 - i,
    {
        proof {
            lemma_joined(parts, i as int, ", "@);
        }
        delimit(out, i == 0, ", ");
        push_decimal(out, words[i]);
        i = i + 1;
        assert(out@ =~= start + joined_text(parts.take(i as int), ", "@));
    }
    assert(parts.take(i as int) =~= parts);
    out.append("] }");
    assert(out@ =~= old(out)@ + byte_set_text(set.bits()));
}

fn push_edge(out: &mut String, edge: &EdgeBytes)
    ensures
        final(out)@ == old(out)@ + edge_text(edge@),
{
    let bytes = edge.as_slice();
    let ghost parts = Seq::new(
        EdgeBytes::CAPACITY as nat,
        |i: int| decimal(padded(edge@)[i] as nat),
    );
    out.append("EdgeBytes { len: ");
    push_decimal(out, bytes.len() as u64);
    out.append(", bytes: [");
    let ghost start = out@;
    let mut i: usize = 0;
    assert(parts.take(0) =~= Seq::<Seq<char>>::empty());
    assert(out@ =~= start + joined_text(parts.take(0), ", "@));
    while i < EdgeBytes::CAPACITY
        invariant
            i <= EdgeBytes::CAPACITY == parts.len(),
            bytes@ == edge@,
            parts == Seq::new(
                EdgeBytes::CAPACITY as nat,
                |i: int| decimal(padded(edge@)[i] as nat),
            ),
            out@ == start + joined_text(parts.take(i as int), ", "@),
        decreases EdgeBytes::CAPACITY - i,
    {
        proof {
            lemma_joined(parts, i as int, ", "@);
        }
        delimit(out, i == 0, ", ");
        let b: u8 = if i < bytes.len() {
            bytes[i]
        } else {
            0
        };
        push_decimal(out, b as u64);
        i = i + 1;
        assert(out@ =~= start + joined_text(parts.take(i as int), ", "@));
    }
    assert(parts.take(i as int) =~= parts);
    out.append("] }");
    assert(out@ =~= old(out)@ + edge_text(edge@));
}

fn write_byte_counts(out: &mut String, counts: &SaturatingByteCounts256)
    ensures
        final(out)@ == old(out)@ + "MinByteCounts("@ + joined_text(
            count_texts(counts.tally(), 256),
            ","@,
        ) + ")"@,
{
    out.append("MinByteCounts(");
    let ghost start = out@;
    let all = counts.counts();
    let ghost tally = counts.tally();
    let mut first = true;
    let mut b: usize = 0;
    assert(out@ =~= start + joined_text(count_texts(tally, 0), ","@));
    while b < 256
        invariant
            b <= 256,
            all@ == tally,
            all@.len() == 256,
            first == (count_texts(tally, b as int).len() == 0),
            out@ == start + joined_text(count_texts(tally, b as int), ","@),
        decreases 256 - b,
    {
        let ghost before = count_texts(tally, b as int);
        let ghost text = out@;
        if all[b] > 0 {
            delimit(out, first, ",");
            first = false;
            push_hex_byte(out, b as u8);
            out.append(":");
            push_decimal(out, all[b] as u64);
            proof {
                let part = hex_byte(b as u8) + ":"@ + decimal(tally[b as int] as nat);
                let after = count_texts(tally, b + 1);
                assert(after == before.push(part));
                assert(after.drop_last() =~= before);
                assert(out@ =~= start + joined_text(after, ","@));
            }
        }
        b = b + 1;
    }
    out.append(")");
}

fn push_need(out: &mut String, need: &ScanNeed)
    ensures
        final(out)@ == old(out)@ + need_text(*need),
{
    match need {
        ScanNeed::MinByteLen(n) => {
            out.append("MinByteLen(");
            push_decimal(out, *n);
            out.append(")");
        },
        ScanNeed::MinLongestLineLen(n) => {
            out.append("MinLongestLineLen(");
            push_decimal(out, *n as u64);
            out.append(")");
        },
        ScanNeed::ContainsAnyByte(bytes) => {
            out.append("ContainsAnyByte(");
            push_byte_set(out, bytes);
            out.append(")");
        },
        ScanNeed::MinByteCounts(counts) => write_byte_counts(out, counts),
        ScanNeed::LineStartsWithAnyByte(bytes) => {
            out.append("LineStartsWithAnyByte(");
            push_byte_set(out, bytes);
            out.append(")");
        },
        ScanNeed::LineEndsWithAnyByte(bytes) => {
            out.append("LineEndsWithAnyByte(");
            push_byte_set(out, bytes);
            out.append(")");
        },
        ScanNeed::StartsWith(edge) => {
            out.append("StartsWith(");
            push_edge(out, edge);
            out.append(")");
        },
        ScanNeed::EndsWith(edge) => {
            out.append("EndsWith(");
            push_edge(out, edge);
            out.append(")");
        },
    }
    assert(out@ =~= old(out)@ + need_text(*need));
}

/// Append the needles and conditions of one node.
fn push_leaves(
    out: &mut String,
    grams: &Vec<GramNeedle>,
    needs: &Vec<ScanNeed>,
    sep: &str,
)
    ensures
        final(out)@ == old(out)@ + joined_text(
            needle_texts(crate::query::plan::needles(grams@)) + need_texts(needs@),
            sep@,
        ),
{
    let ghost start = out@;
    let ghost heads = needle_texts(crate::query::plan::needles(grams@));
    let ghost parts = heads + need_texts(needs@);
    let mut i: usize = 0;
    assert(parts.take(0) =~= Seq::<Seq<char>>::empty());
    assert(out@ =~= start + joined_text(parts.take(0), sep@));
    while i < grams.len()
        invariant
            i <= grams@.len(),
            heads == needle_texts(crate::query::plan::needles(grams@)),
            parts == heads + need_texts(needs@),
            out@ == start + joined_text(parts.take(i as int), sep@),
        decreases grams@.len() - i,
    {
        proof {
            lemma_joined(parts, i as int, sep@);
        }
        delimit(out, i == 0, sep);
        push_needle(out, &grams[i]);
        i = i + 1;
        assert(out@ =~= start + joined_text(parts.take(i as int), sep@));
    }
    let mut k: usize = 0;
    while k < needs.len()
        invariant
            k <= needs@.len(),
            heads.len() == grams@.len(),
            parts == heads + need_texts(needs@),
            out@ == start + joined_text(parts.take(grams@.len() + k), sep@),
        decreases needs@.len() - k,
    {
        proof {
            lemma_joined(parts, grams@.len() + k, sep@);
        }
        delimit(out, grams.len() == 0 && k == 0, sep);
        push_need(out, &needs[k]);
        k = k + 1;
        assert(out@ =~= start + joined_text(parts.take(grams@.len() + k), sep@));
    }
    assert(parts.take(grams@.len() + k) =~= parts);
}

impl ScanNeed {
    /// The condition as text.
    pub fn render(&self) -> (out: String)
        ensures
            out@ == need_text(*self),
    {
        let mut out = String::new();
        push_need(&mut out, self);
        assert(out@ =~= need_text(*self));
        out
    }
}

impl PlanExpr {
    /// The expression as text.
    pub fn render(&self) -> (out: String)
        ensures
            out@ == expr_text(self.expr()),
    {
        let mut out = String::new();
        self.push_text(&mut out);
        assert(out@ =~= expr_text(self.expr()));
        out
    }

    fn push_text(&self, out: &mut String)
        ensures
            final(out)@ == old(out)@ + expr_text(self.expr()),
        decreases self,
    {
        match self {
            PlanExpr::All => out.append("+"),
            PlanExpr::Nothing => out.append("-"),
            PlanExpr::AllOf { grams, needs, children } => {
                let ghost start = out@;
                let ghost heads = needle_texts(crate::query::plan::needles(grams@)) + need_texts(
                    needs@,
                );
                let ghost all = children_texts(self.expr(), false);
                let ghost parts = heads + all;
                push_leaves(out, grams, needs, " ");
                assert(parts.take(heads.len() as int) =~= heads);
                let mut i: usize = 0;
                while i < children.len()
                    invariant
                        i <= children@.len() == all.len(),
                        self matches PlanExpr::AllOf { grams: _, needs: _, children: c } && c
                            == children,
                        self.expr() is AllOf,
                        all == children_texts(self.expr(), false),
                        heads.len() == grams@.len() + needs@.len(),
                        parts == heads + all,
                        out@ == start + joined_text(parts.take(heads.len() + i), " "@),
                    decreases children@.len() - i,
                {
                    proof {
                        lemma_joined(parts, heads.len() + i, " "@);
                        assert(self.expr()->AllOf_children[i as int] == children@[i as int].expr());
                    }
                    delimit(out, grams.len() == 0 && needs.len() == 0 && i == 0, " ");
                    children[i].push_text(out);
                    i = i + 1;
                    assert(out@ =~= start + joined_text(parts.take(heads.len() + i), " "@));
                }
                assert(parts.take(heads.len() + i) =~= parts);
            },
            PlanExpr::AnyOf { grams, needs, children } => {
                let ghost start = out@;
                let ghost heads = needle_texts(crate::query::plan::needles(grams@)) + need_texts(
                    needs@,
                );
                let ghost all = children_texts(self.expr(), true);
                let ghost parts = heads + all;
                push_leaves(out, grams, needs, "|");
                assert(parts.take(heads.len() as int) =~= heads);
                let mut i: usize = 0;
                while i < children.len()
                    invariant
                        i <= children@.len() == all.len(),
                        self matches PlanExpr::AnyOf { grams: _, needs: _, children: c } && c
                            == children,
                        self.expr() is AnyOf,
                        all == children_texts(self.expr(), true),
                        heads.len() == grams@.len() + needs@.len(),
                        parts == heads + all,
                        out@ == start + joined_text(parts.take(heads.len() + i), "|"@),
                    decreases children@.len() - i,
                {
                    proof {
                        lemma_joined(parts, heads.len() + i, "|"@);
                        assert(self.expr()->AnyOf_children[i as int] == children@[i as int].expr());
                    }
                    delimit(out, grams.len() == 0 && needs.len() == 0 && i == 0, "|");
                    out.append("(");
                    children[i].push_text(out);
                    out.append(")");
                    i = i + 1;
                    assert(out@ =~= start + joined_text(parts.take(heads.len() + i), "|"@));
                }
                assert(parts.take(heads.len() + i) =~= parts);
            },
        }
    }
}

impl QueryPlan {
    /// The plan as text.
    pub fn render(&self) -> (out: String)
        ensures
            out@ == expr_text(self@),
    {
        self.root().render()
    }
}

} // verus!
