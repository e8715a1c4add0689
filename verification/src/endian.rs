//! Little-endian integers in byte strings.

use vstd::arithmetic::div_mod::lemma_div_denominator;
use vstd::arithmetic::power::{lemma_pow0, lemma_pow_positive, pow};
use vstd::prelude::*;

verus! {

/// The `k` lowest bytes of `n`, lowest first.
pub open spec fn le_bytes(n: nat, k: nat) -> Seq<u8>
    decreases k,
{
    if k == 0 {
        Seq::empty()
    } else {
        seq![(n % 256) as u8] + le_bytes(n / 256, (k - 1) as nat)
    }
}

/// The number these bytes spell, lowest first.
pub open spec fn le_value(s: Seq<u8>) -> nat
    decreases s.len(),
{
    if s.len() == 0 {
        0
    } else {
        (s[0] + 256 * le_value(s.drop_first())) as nat
    }
}

/// 256 to the `k`.
pub open spec fn le_limit(k: nat) -> nat
    decreases k,
{
    if k == 0 {
        1
    } else {
        256 * le_limit((k - 1) as nat)
    }
}

pub proof fn lemma_le_len(n: nat, k: nat)
    ensures
        le_bytes(n, k).len() == k,
    decreases k,
{
    if k > 0 {
        lemma_le_len(n / 256, (k - 1) as nat);
    }
}

/// The lowest byte comes first: byte `i` is the digit of `n` to the base 256 that
/// counts for 256 to the `i`.
pub proof fn law_lowest_byte_first(n: nat, k: nat, i: int)
    requires
        0 <= i < k,
    ensures
        le_bytes(n, k).len() == k,
        le_bytes(n, k)[i] == n as int / pow(256, i as nat) % 256,
    decreases k,
{
    lemma_le_len(n, k);
    if i == 0 {
        lemma_pow0(256);
    } else {
        law_lowest_byte_first(n / 256, (k - 1) as nat, i - 1);
        lemma_pow_positive(256, (i - 1) as nat);
        lemma_div_denominator(n as int, 256, pow(256, (i - 1) as nat));
        reveal(pow);
    }
}

/// Reading gives back what writing wrote.
pub proof fn law_le_round_trip(n: nat, k: nat)
    requires
        n < le_limit(k),
    ensures
        le_value(le_bytes(n, k)) == n,
    decreases k,
{
    if k > 0 {
        let rest = le_bytes(n / 256, (k - 1) as nat);
        law_le_round_trip(n / 256, (k - 1) as nat);
        assert(le_bytes(n, k).drop_first() =~= rest);
    }
}

/// Writing gives back what reading read.
pub proof fn lemma_le_rewrite(s: Seq<u8>)
    ensures
        le_bytes(le_value(s), s.len()) == s,
        le_value(s) < le_limit(s.len()),
    decreases s.len(),
{
    if s.len() > 0 {
        let t = s.drop_first();
        lemma_le_rewrite(t);
        let n = le_value(s);
        assert(n % 256 == s[0]);
        assert(n / 256 == le_value(t));
        assert(le_bytes(n, s.len()) =~= s);
    }
}

/// The limits of the integer types.
pub proof fn lemma_le_limits()
    ensures
        le_limit(4) == 0x1_0000_0000,
        le_limit(8) == 0x1_0000_0000_0000_0000,
{
    reveal_with_fuel(le_limit, 9);
}

/// Append the `k` lowest bytes of `n`, lowest first.
pub fn put_le(out: &mut Vec<u8>, n: u64, k: usize)
    ensures
        final(out)@ == old(out)@ + le_bytes(n as nat, k as nat),
{
    let ghost start = out@;
    let mut rest: u64 = n;
    let mut left: usize = k;
    assert(out@ + le_bytes(rest as nat, left as nat) =~= start + le_bytes(n as nat, k as nat));
    while left > 0
        invariant
            out@ + le_bytes(rest as nat, left as nat) == start + le_bytes(n as nat, k as nat),
        decreases left,
    {
        let ghost before = out@;
        let ghost tail = le_bytes((rest / 256) as nat, (left - 1) as nat);
        out.push((rest % 256) as u8);
        assert(before + (seq![(rest % 256) as u8] + tail) =~= out@ + tail);
        rest = rest / 256;
        left = left - 1;
    }
    assert(out@ + le_bytes(rest as nat, 0) =~= out@);
}

/// The number the `k` bytes from `at` on spell, lowest first.
pub fn get_le(bytes: &[u8], at: usize, k: usize) -> (n: u64)
    requires
        k <= 8,
        at + k <= bytes@.len(),
    ensures
        n == le_value(bytes@.subrange(at as int, at + k)),
{
    let len: usize = bytes.len();
    let mut n: u64 = 0;
    let mut i: usize = k;
    assert(bytes@.subrange(at + k, at + k) =~= Seq::<u8>::empty());
    while i > 0
        invariant
            i <= k <= 8,
            at + k <= len == bytes@.len(),
            n == le_value(bytes@.subrange(at + i, at + k)),
        decreases i,
    {
        proof {
            let s = bytes@.subrange(at + i, at + k);
            let t = bytes@.subrange(at + i - 1, at + k);
            assert(t.drop_first() =~= s);
            lemma_le_rewrite(t);
            lemma_le_limits();
            lemma_limit_rises(t.len(), 8);
        }
        i = i - 1;
        n = bytes[at + i] as u64 + 256 * n;
    }
    n
}

proof fn lemma_limit_rises(a: nat, b: nat)
    requires
        a <= b,
    ensures
        le_limit(a) <= le_limit(b),
    decreases b,
{
    if a < b {
        lemma_limit_rises(a, (b - 1) as nat);
        lemma_limit_positive((b - 1) as nat);
    }
}

proof fn lemma_limit_positive(k: nat)
    ensures
        le_limit(k) >= 1,
    decreases k,
{
    if k > 0 {
        lemma_limit_positive((k - 1) as nat);
    }
}

} // verus!
