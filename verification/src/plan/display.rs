//! Plans over grams as text.

use vstd::prelude::*;
use vstd::string::*;

use crate::plan::QueryPlan;
use crate::query::algebra::{Op, Tree};
use crate::query::gram::{texts, Gram};
use crate::query::plan::display::{child_text, delimit, joined_text, lemma_joined};
use crate::query::plan::readable::law_parts_are_joined;
use crate::text::{digit, digit_value, is_hex_digit, law_hex_byte_reads_back, push_digit};

verus! {

/// The printable ASCII characters from the space on, in order.
pub open spec fn printable() -> Seq<char> {
    " !\"#$%&'()*+,-./0123456789:;<=>?@ABCDEFGHIJKLMNOPQRSTUVWXYZ[\\]^_`abcdefghijklmnopqrstuvwxyz{|}~"@
}

/// A byte of a gram: printable ones as they are, behind a backslash where they
/// are a quote or a backslash; all others in hexadecimal.
pub open spec fn byte_text(b: u8) -> Seq<char> {
    if b == 0x22 {
        "\\\""@
    } else if b == 0x5c {
        "\\\\"@
    } else if 0x20 <= b < 0x7f {
        printable().subrange(b - 0x20, b - 0x20 + 1)
    } else {
        "\\x"@ + digit(b as nat / 16) + digit(b as nat % 16)
    }
}

/// The bytes of a gram, one after the other.
pub open spec fn bytes_text(bytes: Seq<u8>) -> Seq<char>
    decreases bytes.len(),
{
    if bytes.len() == 0 {
        Seq::empty()
    } else {
        bytes_text(bytes.drop_last()) + byte_text(bytes.last())
    }
}

/// A gram in quotes.
pub open spec fn gram_text(gram: Seq<u8>) -> Seq<char> {
    "\""@ + bytes_text(gram) + "\""@
}

/// The grams, each in quotes.
pub open spec fn gram_texts(grams: Seq<Seq<u8>>) -> Seq<Seq<char>> {
    Seq::new(grams.len(), |i: int| gram_text(grams[i]))
}

/// A plan: `+` for all documents, `-` for none; all conditions one after the
/// other with spaces between them, alternatives with bars between them and
/// nested ones in brackets.
pub open spec fn tree_text(t: Tree) -> Seq<char>
    decreases t, 1int,
{
    match t.op {
        Op::All => "+"@,
        Op::Nothing => "-"@,
        Op::And => joined_text(gram_texts(t.grams) + sub_texts(t, false), " "@),
        Op::Or => joined_text(gram_texts(t.grams) + sub_texts(t, true), "|"@),
    }
}

/// The texts of the nested plans, in brackets or not.
pub open spec fn sub_texts(t: Tree, bracketed: bool) -> Seq<Seq<char>>
    decreases t, 0int,
{
    Seq::new(
        t.sub.len(),
        |i: int|
            if 0 <= i < t.sub.len() {
                child_text(tree_text(t.sub[i]), bracketed)
            } else {
                arbitrary()
            },
    )
}

/// A byte of a gram can be read off its text: a printable byte is the character
/// that it is in ASCII, with a backslash before it where that is a quote or a
/// backslash; any other byte is its number in two hexadecimal digits.
pub proof fn law_bytes_read_back(b: u8)
    ensures
        0x20 <= b < 0x7f && b != 0x22 && b != 0x5c ==> byte_text(b) == seq![b as char],
        b == 0x22 || b == 0x5c ==> byte_text(b) == seq!['\\', b as char],
        !(0x20 <= b < 0x7f) ==> {
            &&& byte_text(b).len() == 4
            &&& byte_text(b)[0] == '\\'
            &&& byte_text(b)[1] == 'x'
            &&& is_hex_digit(byte_text(b)[2])
            &&& is_hex_digit(byte_text(b)[3])
            &&& 16 * digit_value(byte_text(b)[2]) + digit_value(byte_text(b)[3]) == b
        },
{
    reveal_strlit("\\\"");
    reveal_strlit("\\\\");
    reveal_strlit("\\x");
    reveal_strlit(
        " !\"#$%&'()*+,-./0123456789:;<=>?@ABCDEFGHIJKLMNOPQRSTUVWXYZ[\\]^_`abcdefghijklmnopqrstuvwxyz{|}~",
    );
    if !(0x20 <= b < 0x7f) {
        law_hex_byte_reads_back(b);
        reveal_strlit("0x");
    } else {
        assert(printable()[b - 0x20] == b as char);
    }
}

/// The text of a conjunction grows by a space and the text of the part: a gram in
/// quotes, or a nested plan as it is. The text of an alternative grows by a bar and
/// the text of the part: a gram in quotes, or a nested plan in brackets.
pub proof fn law_plan_text_grows_by_its_part(
    grams: Seq<Seq<u8>>,
    sub: Seq<Tree>,
    gram: Seq<u8>,
    t: Tree,
)
    requires
        grams.len() > 0,
    ensures
        ({
            let none = Seq::<Tree>::empty();
            let and = |g: Seq<Seq<u8>>, s: Seq<Tree>| Tree { op: Op::And, grams: g, sub: s };
            let or = |g: Seq<Seq<u8>>, s: Seq<Tree>| Tree { op: Op::Or, grams: g, sub: s };
            let quoted = seq!['"'] + bytes_text(gram) + seq!['"'];
            &&& tree_text(and(grams.push(gram), none)) == tree_text(and(grams, none)) + seq![' ']
                + quoted
            &&& tree_text(or(grams.push(gram), none)) == tree_text(or(grams, none)) + seq!['|']
                + quoted
            &&& tree_text(and(grams, sub.push(t))) == tree_text(and(grams, sub)) + seq![' ']
                + tree_text(t)
            &&& tree_text(or(grams, sub.push(t))) == tree_text(or(grams, sub)) + seq!['|', '(']
                + tree_text(t) + seq![')']
        }),
{
    reveal_strlit(" ");
    reveal_strlit("|");
    reveal_strlit("(");
    reveal_strlit(")");
    reveal_strlit("\"");
    assert(" "@ =~= seq![' ']);
    assert("|"@ =~= seq!['|']);
    assert("\""@ =~= seq!['"']);
    let none = Seq::<Tree>::empty();
    let and = |g: Seq<Seq<u8>>, s: Seq<Tree>| Tree { op: Op::And, grams: g, sub: s };
    let or = |g: Seq<Seq<u8>>, s: Seq<Tree>| Tree { op: Op::Or, grams: g, sub: s };
    let heads = gram_texts(grams);
    let (one, more) = (gram_text(gram), sub.push(t));
    assert(gram_texts(grams.push(gram)) + sub_texts(and(grams.push(gram), none), false) =~= (heads
        + sub_texts(and(grams, none), false)).push(one));
    assert(gram_texts(grams.push(gram)) + sub_texts(or(grams.push(gram), none), true) =~= (heads
        + sub_texts(or(grams, none), true)).push(one));
    assert(heads + sub_texts(and(grams, more), false) =~= (heads + sub_texts(
        and(grams, sub),
        false,
    )).push(tree_text(t)));
    let boxed = child_text(tree_text(t), true);
    assert(heads + sub_texts(or(grams, more), true) =~= (heads + sub_texts(
        or(grams, sub),
        true,
    )).push(boxed));
    law_parts_are_joined(heads + sub_texts(and(grams, none), false), one, " "@);
    law_parts_are_joined(heads + sub_texts(or(grams, none), true), one, "|"@);
    law_parts_are_joined(heads + sub_texts(and(grams, sub), false), tree_text(t), " "@);
    law_parts_are_joined(heads + sub_texts(or(grams, sub), true), boxed, "|"@);
    assert(boxed =~= seq!['('] + tree_text(t) + seq![')']);
    assert(tree_text(or(grams, sub)) + seq!['|'] + boxed =~= tree_text(or(grams, sub)) + seq![
        '|',
        '(',
    ] + tree_text(t) + seq![')']);
}

fn push_byte(out: &mut String, b: u8)
    ensures
        final(out)@ == old(out)@ + byte_text(b),
{
    if b == 0x22 {
        out.append("\\\"");
    } else if b == 0x5c {
        out.append("\\\\");
    } else if 0x20 <= b && b < 0x7f {
        let all =
            " !\"#$%&'()*+,-./0123456789:;<=>?@ABCDEFGHIJKLMNOPQRSTUVWXYZ[\\]^_`abcdefghijklmnopqrstuvwxyz{|}~";
        proof {
            reveal_strlit(
                " !\"#$%&'()*+,-./0123456789:;<=>?@ABCDEFGHIJKLMNOPQRSTUVWXYZ[\\]^_`abcdefghijklmnopqrstuvwxyz{|}~",
            );
        }
        let from: usize = (b - 0x20) as usize;
        out.append(all.substring_char(from, from + 1));
    } else {
        out.append("\\x");
        push_digit(out, (b / 16) as u64);
        push_digit(out, (b % 16) as u64);
        assert(out@ =~= old(out)@ + byte_text(b));
    }
}

fn push_gram(out: &mut String, gram: &Gram)
    ensures
        final(out)@ == old(out)@ + gram_text(gram@),
{
    out.append("\"");
    let ghost start = out@;
    let bytes = gram.as_bytes();
    let mut i: usize = 0;
    assert(bytes@.take(0) =~= Seq::<u8>::empty());
    assert(out@ =~= start + bytes_text(bytes@.take(0)));
    while i < bytes.len()
        invariant
            i <= bytes@.len(),
            out@ == start + bytes_text(bytes@.take(i as int)),
        decreases bytes@.len() - i,
    {
        push_byte(out, bytes[i]);
        i = i + 1;
        assert(bytes@.take(i as int).drop_last() =~= bytes@.take(i - 1));
        assert(out@ =~= start + bytes_text(bytes@.take(i as int)));
    }
    assert(bytes@.take(i as int) =~= bytes@);
    out.append("\"");
    assert(out@ =~= old(out)@ + gram_text(gram@));
}

fn push_grams(out: &mut String, grams: &Vec<Gram>, sep: &str)
    ensures
        final(out)@ == old(out)@ + joined_text(gram_texts(texts(grams@)), sep@),
{
    let ghost start = out@;
    let ghost parts = gram_texts(texts(grams@));
    let mut i: usize = 0;
    assert(parts.take(0) =~= Seq::<Seq<char>>::empty());
    assert(out@ =~= start + joined_text(parts.take(0), sep@));
    while i < grams.len()
        invariant
            i <= grams@.len(),
            parts == gram_texts(texts(grams@)),
            out@ == start + joined_text(parts.take(i as int), sep@),
        decreases grams@.len() - i,
    {
        proof {
            lemma_joined(parts, i as int, sep@);
        }
        delimit(out, i == 0, sep);
        push_gram(out, &grams[i]);
        i = i + 1;
        assert(out@ =~= start + joined_text(parts.take(i as int), sep@));
    }
    assert(parts.take(i as int) =~= parts);
}

impl QueryPlan {
    /// The plan as text.
    pub fn render(&self) -> (out: String)
        ensures
            out@ == tree_text(self.tree()),
    {
        let mut out = String::new();
        self.push_text(&mut out);
        assert(out@ =~= tree_text(self.tree()));
        out
    }

    fn push_text(&self, out: &mut String)
        ensures
            final(out)@ == old(out)@ + tree_text(self.tree()),
        decreases self,
    {
        match self {
            QueryPlan::All => out.append("+"),
            QueryPlan::Nothing => out.append("-"),
            QueryPlan::And { grams, sub } => {
                let ghost start = out@;
                let ghost heads = gram_texts(texts(grams@));
                let ghost all = sub_texts(self.tree(), false);
                let ghost parts = heads + all;
                push_grams(out, grams, " ");
                assert(parts.take(heads.len() as int) =~= heads);
                let mut i: usize = 0;
                while i < sub.len()
                    invariant
                        i <= sub@.len() == all.len(),
                        self matches QueryPlan::And { grams: _, sub: s } && s == sub,
                        self.tree().op == Op::And,
                        all == sub_texts(self.tree(), false),
                        heads.len() == grams@.len(),
                        parts == heads + all,
                        out@ == start + joined_text(parts.take(heads.len() + i), " "@),
                    decreases sub@.len() - i,
                {
                    proof {
                        lemma_joined(parts, heads.len() + i, " "@);
                        assert(self.tree().sub[i as int] == sub@[i as int].tree());
                    }
                    delimit(out, grams.len() == 0 && i == 0, " ");
                    sub[i].push_text(out);
                    i = i + 1;
                    assert(out@ =~= start + joined_text(parts.take(heads.len() + i), " "@));
                }
                assert(parts.take(heads.len() + i) =~= parts);
            },
            QueryPlan::Or { grams, sub } => {
                let ghost start = out@;
                let ghost heads = gram_texts(texts(grams@));
                let ghost all = sub_texts(self.tree(), true);
                let ghost parts = heads + all;
                push_grams(out, grams, "|");
                assert(parts.take(heads.len() as int) =~= heads);
                let mut i: usize = 0;
                while i < sub.len()
                    invariant
                        i <= sub@.len() == all.len(),
                        self matches QueryPlan::Or { grams: _, sub: s } && s == sub,
                        self.tree().op == Op::Or,
                        all == sub_texts(self.tree(), true),
                        heads.len() == grams@.len(),
                        parts == heads + all,
                        out@ == start + joined_text(parts.take(heads.len() + i), "|"@),
                    decreases sub@.len() - i,
                {
                    proof {
                        lemma_joined(parts, heads.len() + i, "|"@);
                        assert(self.tree().sub[i as int] == sub@[i as int].tree());
                    }
                    delimit(out, grams.len() == 0 && i == 0, "|");
                    out.append("(");
                    sub[i].push_text(out);
                    out.append(")");
                    i = i + 1;
                    assert(out@ =~= start + joined_text(parts.take(heads.len() + i), "|"@));
                }
                assert(parts.take(heads.len() + i) =~= parts);
            },
        }
    }
}

} // verus!
