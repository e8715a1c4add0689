//! What the text of a plan tells: which condition it is, and with which number.

use vstd::prelude::*;
use vstd::string::*;

use crate::query::plan::display::{
    child_text, children_texts, expr_text, joined_text, key_text, need_text, need_texts,
    needle_text, needle_texts,
};
use crate::query::plan::{Expr, GramKey, Needle, ScanNeed};
use crate::text::{decimal, law_decimal_reads_back};

verus! {

/// Numbers in decimal differ where the numbers do.
proof fn lemma_decimals_differ(head: Seq<char>, tail: Seq<char>, n: nat, m: nat)
    requires
        head + decimal(n) + tail == head + decimal(m) + tail,
    ensures
        n == m,
{
    let (a, b) = (head + decimal(n) + tail, head + decimal(m) + tail);
    assert(a.len() == head.len() + decimal(n).len() + tail.len());
    assert(b.len() == head.len() + decimal(m).len() + tail.len());
    assert forall|i: int| 0 <= i < decimal(n).len() implies decimal(n)[i] == decimal(m)[i] by {
        assert(a[head.len() + i] == decimal(n)[i]);
        assert(b[head.len() + i] == decimal(m)[i]);
    }
    assert(decimal(n) =~= decimal(m));
    law_decimal_reads_back(n);
    law_decimal_reads_back(m);
}

/// The texts of two keys differ where the keys do.
pub proof fn law_texts_tell_keys_apart(a: GramKey, b: GramKey)
    requires
        key_text(a) == key_text(b),
    ensures
        a == b,
{
    lemma_decimals_differ("GramKey("@, ")"@, a.0 as nat, b.0 as nat);
}

/// The characters by which the text of a condition starts.
proof fn lemma_need_heads(need: ScanNeed)
    ensures
        need_text(need).len() >= 9,
        ({
            let t = need_text(need);
            match need {
                ScanNeed::MinByteLen(_) => t[0] == 'M' && t[3] == 'B' && t[7] == 'L',
                ScanNeed::MinLongestLineLen(_) => t[0] == 'M' && t[3] == 'L',
                ScanNeed::ContainsAnyByte(_) => t[0] == 'C',
                ScanNeed::MinByteCounts(_) => t[0] == 'M' && t[3] == 'B' && t[7] == 'C',
                ScanNeed::LineStartsWithAnyByte(_) => t[0] == 'L' && t[4] == 'S',
                ScanNeed::LineEndsWithAnyByte(_) => t[0] == 'L' && t[4] == 'E',
                ScanNeed::StartsWith(_) => t[0] == 'S',
                ScanNeed::EndsWith(_) => t[0] == 'E',
            }
        }),
{
    reveal_strlit("MinByteLen(");
    reveal_strlit("MinLongestLineLen(");
    reveal_strlit("ContainsAnyByte(");
    reveal_strlit("MinByteCounts(");
    reveal_strlit("LineStartsWithAnyByte(");
    reveal_strlit("LineEndsWithAnyByte(");
    reveal_strlit("StartsWith(");
    reveal_strlit("EndsWith(");
}

/// Conditions with the same text are of the same kind, and name the same length.
pub proof fn law_texts_tell_conditions_apart(a: ScanNeed, b: ScanNeed)
    requires
        need_text(a) == need_text(b),
    ensures
        a is MinByteLen == b is MinByteLen,
        a is MinLongestLineLen == b is MinLongestLineLen,
        a is ContainsAnyByte == b is ContainsAnyByte,
        a is MinByteCounts == b is MinByteCounts,
        a is LineStartsWithAnyByte == b is LineStartsWithAnyByte,
        a is LineEndsWithAnyByte == b is LineEndsWithAnyByte,
        a is StartsWith == b is StartsWith,
        a is EndsWith == b is EndsWith,
        a is MinByteLen ==> a == b,
        a is MinLongestLineLen ==> a == b,
{
    lemma_need_heads(a);
    lemma_need_heads(b);
    match (a, b) {
        (ScanNeed::MinByteLen(n), ScanNeed::MinByteLen(m)) => {
            lemma_decimals_differ("MinByteLen("@, ")"@, n as nat, m as nat);
        },
        (ScanNeed::MinLongestLineLen(n), ScanNeed::MinLongestLineLen(m)) => {
            lemma_decimals_differ("MinLongestLineLen("@, ")"@, n as nat, m as nat);
        },
        _ => {},
    }
}

/// One part more stands behind the others, with the separator before it.
pub proof fn law_parts_are_joined(parts: Seq<Seq<char>>, part: Seq<char>, sep: Seq<char>)
    ensures
        joined_text(Seq::empty(), sep) == Seq::<char>::empty(),
        joined_text(seq![part], sep) == part,
        parts.len() > 0 ==> joined_text(parts.push(part), sep) == joined_text(parts, sep) + sep
            + part,
{
    assert(parts.push(part).drop_last() =~= parts);
}

/// The text of a conjunction grows by a space and the text of the part: a needle,
/// or a nested expression as it is. The text of an alternative grows by a bar and
/// the text of the part: a needle as it is, or a nested expression in brackets.
pub proof fn law_text_grows_by_its_part(grams: Seq<Needle>, children: Seq<Expr>, n: Needle, e: Expr)
    requires
        grams.len() > 0,
    ensures
        ({
            let none = Seq::<Expr>::empty();
            let needs = Seq::<ScanNeed>::empty();
            let all = |g: Seq<Needle>, c: Seq<Expr>| Expr::AllOf { grams: g, needs, children: c };
            let any = |g: Seq<Needle>, c: Seq<Expr>| Expr::AnyOf { grams: g, needs, children: c };
            &&& expr_text(all(grams.push(n), none)) == expr_text(all(grams, none)) + seq![' ']
                + needle_text(n)
            &&& expr_text(any(grams.push(n), none)) == expr_text(any(grams, none)) + seq!['|']
                + needle_text(n)
            &&& expr_text(all(grams, children.push(e))) == expr_text(all(grams, children))
                + seq![' '] + expr_text(e)
            &&& expr_text(any(grams, children.push(e))) == expr_text(any(grams, children))
                + seq!['|', '('] + expr_text(e) + seq![')']
        }),
{
    reveal_strlit(" ");
    reveal_strlit("|");
    reveal_strlit("(");
    reveal_strlit(")");
    assert(" "@ =~= seq![' ']);
    assert("|"@ =~= seq!['|']);
    let none = Seq::<Expr>::empty();
    let needs = Seq::<ScanNeed>::empty();
    let all = |g: Seq<Needle>, c: Seq<Expr>| Expr::AllOf { grams: g, needs, children: c };
    let any = |g: Seq<Needle>, c: Seq<Expr>| Expr::AnyOf { grams: g, needs, children: c };
    let more = children.push(e);
    let heads = needle_texts(grams) + need_texts(needs);
    assert(needle_texts(grams.push(n)) + need_texts(needs) + children_texts(
        all(grams.push(n), none),
        false,
    ) =~= (heads + children_texts(all(grams, none), false)).push(needle_text(n)));
    assert(needle_texts(grams.push(n)) + need_texts(needs) + children_texts(
        any(grams.push(n), none),
        true,
    ) =~= (heads + children_texts(any(grams, none), true)).push(needle_text(n)));
    assert(children_texts(all(grams, more), false) =~= children_texts(
        all(grams, children),
        false,
    ).push(expr_text(e)));
    assert(heads + children_texts(all(grams, more), false) =~= (heads + children_texts(
        all(grams, children),
        false,
    )).push(expr_text(e)));
    let boxed = child_text(expr_text(e), true);
    assert(children_texts(any(grams, more), true) =~= children_texts(
        any(grams, children),
        true,
    ).push(boxed));
    assert(heads + children_texts(any(grams, more), true) =~= (heads + children_texts(
        any(grams, children),
        true,
    )).push(boxed));
    law_parts_are_joined(heads + children_texts(all(grams, none), false), needle_text(n), " "@);
    law_parts_are_joined(heads + children_texts(any(grams, none), true), needle_text(n), "|"@);
    law_parts_are_joined(heads + children_texts(all(grams, children), false), expr_text(e), " "@);
    law_parts_are_joined(heads + children_texts(any(grams, children), true), boxed, "|"@);
    assert(boxed =~= seq!['('] + expr_text(e) + seq![')']);
    assert(expr_text(any(grams, children)) + seq!['|'] + boxed =~= expr_text(any(grams, children))
        + seq!['|', '('] + expr_text(e) + seq![')']);
}

} // verus!
