//! Numbers as text.

use vstd::prelude::*;
use vstd::string::*;

verus! {

/// A digit as text.
pub open spec fn digit(d: nat) -> Seq<char> {
    if d == 0 {
        "0"@
    } else if d == 1 {
        "1"@
    } else if d == 2 {
        "2"@
    } else if d == 3 {
        "3"@
    } else if d == 4 {
        "4"@
    } else if d == 5 {
        "5"@
    } else if d == 6 {
        "6"@
    } else if d == 7 {
        "7"@
    } else if d == 8 {
        "8"@
    } else if d == 9 {
        "9"@
    } else if d == 10 {
        "a"@
    } else if d == 11 {
        "b"@
    } else if d == 12 {
        "c"@
    } else if d == 13 {
        "d"@
    } else if d == 14 {
        "e"@
    } else {
        "f"@
    }
}

/// A number in decimal.
pub open spec fn decimal(n: nat) -> Seq<char>
    decreases n,
{
    if n < 10 {
        digit(n)
    } else {
        decimal(n / 10) + digit(n % 10)
    }
}

/// A byte in hexadecimal, with its prefix and both digits.
pub open spec fn hex_byte(b: u8) -> Seq<char> {
    "0x"@ + digit(b as nat / 16) + digit(b as nat % 16)
}

/// A number in decimal, with an underscore between groups of three digits.
pub open spec fn grouped(n: nat) -> Seq<char>
    decreases n,
{
    if n < 1000 {
        decimal(n)
    } else {
        grouped(n / 1000) + "_"@ + digit(n / 100 % 10) + digit(n / 10 % 10) + digit(n % 10)
    }
}

/// What a digit counts.
pub open spec fn digit_value(c: char) -> int {
    if c <= '9' {
        c as int - '0' as int
    } else {
        c as int - 'a' as int + 10
    }
}

/// A digit of a decimal number.
pub open spec fn is_decimal_digit(c: char) -> bool {
    '0' <= c <= '9'
}

/// A digit of a hexadecimal number.
pub open spec fn is_hex_digit(c: char) -> bool {
    is_decimal_digit(c) || 'a' <= c <= 'f'
}

/// The number that decimal digits spell. Underscores do not count.
pub open spec fn numeral(s: Seq<char>) -> int
    decreases s.len(),
{
    if s.len() == 0 {
        0
    } else if s.last() == '_' {
        numeral(s.drop_last())
    } else {
        10 * numeral(s.drop_last()) + digit_value(s.last())
    }
}

/// A digit is one character, which counts what it stands for.
proof fn lemma_digit(d: nat)
    requires
        d < 16,
    ensures
        digit(d).len() == 1,
        digit_value(digit(d)[0]) == d,
        is_hex_digit(digit(d)[0]),
        d < 10 ==> is_decimal_digit(digit(d)[0]),
{
    reveal_strlit("0");
    reveal_strlit("1");
    reveal_strlit("2");
    reveal_strlit("3");
    reveal_strlit("4");
    reveal_strlit("5");
    reveal_strlit("6");
    reveal_strlit("7");
    reveal_strlit("8");
    reveal_strlit("9");
    reveal_strlit("a");
    reveal_strlit("b");
    reveal_strlit("c");
    reveal_strlit("d");
    reveal_strlit("e");
    reveal_strlit("f");
}

/// One digit more.
proof fn lemma_numeral_grows(s: Seq<char>, d: nat)
    requires
        d < 10,
    ensures
        numeral(s + digit(d)) == 10 * numeral(s) + d,
        (s + digit(d)).len() == s.len() + 1,
        (s + digit(d)).last() == digit(d)[0],
{
    lemma_digit(d);
    assert((s + digit(d)).drop_last() =~= s);
}

/// A number in decimal reads as the number, and has no zero in front.
pub proof fn law_decimal_reads_back(n: nat)
    ensures
        numeral(decimal(n)) == n,
        decimal(n).len() > 0,
        forall|i: int| 0 <= i < decimal(n).len() ==> is_decimal_digit(#[trigger] decimal(n)[i]),
        decimal(n)[0] == '0' ==> n == 0,
    decreases n,
{
    lemma_digit(n % 10);
    if n < 10 {
        lemma_numeral_grows(Seq::empty(), n);
        assert(Seq::empty() + digit(n) =~= digit(n));
    } else {
        law_decimal_reads_back(n / 10);
        lemma_numeral_grows(decimal(n / 10), n % 10);
    }
}

/// A byte in hexadecimal reads as the byte.
pub proof fn law_hex_byte_reads_back(b: u8)
    ensures
        hex_byte(b).len() == 4,
        hex_byte(b)[0] == '0',
        hex_byte(b)[1] == 'x',
        is_hex_digit(hex_byte(b)[2]),
        is_hex_digit(hex_byte(b)[3]),
        16 * digit_value(hex_byte(b)[2]) + digit_value(hex_byte(b)[3]) == b,
{
    reveal_strlit("0x");
    lemma_digit(b as nat / 16);
    lemma_digit(b as nat % 16);
}

/// A number in groups reads as the number, has no zero in front, and has an
/// underscore before every third digit from the end, and nowhere else.
pub proof fn law_grouped_reads_back(n: nat)
    ensures
        numeral(grouped(n)) == n,
        grouped(n).len() > 0,
        grouped(n).len() % 4 != 0,
        forall|i: int|
            0 <= i < grouped(n).len() ==> if (grouped(n).len() - i) % 4 == 0 {
                #[trigger] grouped(n)[i] == '_'
            } else {
                is_decimal_digit(grouped(n)[i])
            },
        grouped(n)[0] == '0' ==> n == 0,
    decreases n,
{
    if n < 1000 {
        law_decimal_reads_back(n);
        lemma_digit(n % 10);
        lemma_digit(n / 10 % 10);
        lemma_digit(n / 100 % 10);
        reveal_with_fuel(decimal, 3);
    } else {
        law_grouped_reads_back(n / 1000);
        reveal_strlit("_");
        let head = grouped(n / 1000);
        let bar = head + "_"@;
        assert(bar.drop_last() =~= head);
        let (x, y, z) = (n / 100 % 10, n / 10 % 10, n % 10);
        lemma_digit(x);
        lemma_digit(y);
        lemma_digit(z);
        lemma_numeral_grows(bar, x);
        lemma_numeral_grows(bar + digit(x), y);
        lemma_numeral_grows(bar + digit(x) + digit(y), z);
        assert(grouped(n) == bar + digit(x) + digit(y) + digit(z));
        assert(n == 1000 * (n / 1000) + 100 * x + 10 * y + z);
        assert(grouped(n).len() == head.len() + 4);
        assert forall|i: int| 0 <= i < grouped(n).len() implies if (grouped(n).len() - i) % 4
            == 0 {
            #[trigger] grouped(n)[i] == '_'
        } else {
            is_decimal_digit(grouped(n)[i])
        } by {
            if i < head.len() {
                assert(grouped(n)[i] == head[i]);
                assert((grouped(n).len() - i) % 4 == (head.len() - i) % 4);
            }
        }
    }
}

/// Append a digit.
pub fn push_digit(out: &mut String, d: u64)
    requires
        d < 16,
    ensures
        final(out)@ == old(out)@ + digit(d as nat),
{
    if d == 0 {
        out.append("0");
    } else if d == 1 {
        out.append("1");
    } else if d == 2 {
        out.append("2");
    } else if d == 3 {
        out.append("3");
    } else if d == 4 {
        out.append("4");
    } else if d == 5 {
        out.append("5");
    } else if d == 6 {
        out.append("6");
    } else if d == 7 {
        out.append("7");
    } else if d == 8 {
        out.append("8");
    } else if d == 9 {
        out.append("9");
    } else if d == 10 {
        out.append("a");
    } else if d == 11 {
        out.append("b");
    } else if d == 12 {
        out.append("c");
    } else if d == 13 {
        out.append("d");
    } else if d == 14 {
        out.append("e");
    } else {
        out.append("f");
    }
}

/// Append a number in decimal.
pub fn push_decimal(out: &mut String, n: u64)
    ensures
        final(out)@ == old(out)@ + decimal(n as nat),
    decreases n,
{
    if n >= 10 {
        push_decimal(out, n / 10);
    }
    push_digit(out, n % 10);
    assert(out@ =~= old(out)@ + decimal(n as nat));
}

/// Append a byte in hexadecimal.
pub fn push_hex_byte(out: &mut String, b: u8)
    ensures
        final(out)@ == old(out)@ + hex_byte(b),
{
    out.append("0x");
    push_digit(out, (b / 16) as u64);
    push_digit(out, (b % 16) as u64);
    assert(out@ =~= old(out)@ + hex_byte(b));
}

/// A number as a Rust literal: in decimal, with an underscore between groups
/// of three digits.
pub fn rust_u64(value: u64) -> (out: String)
    ensures
        out@ == grouped(value as nat),
{
    let mut out = String::new();
    push_grouped(&mut out, value);
    assert(Seq::<char>::empty() + grouped(value as nat) =~= grouped(value as nat));
    out
}

fn push_grouped(out: &mut String, n: u64)
    ensures
        final(out)@ == old(out)@ + grouped(n as nat),
    decreases n,
{
    if n < 1000 {
        push_decimal(out, n);
        return;
    }
    push_grouped(out, n / 1000);
    out.append("_");
    push_digit(out, n / 100 % 10);
    push_digit(out, n / 10 % 10);
    push_digit(out, n % 10);
    assert(out@ =~= old(out)@ + grouped(n as nat));
}

} // verus!
