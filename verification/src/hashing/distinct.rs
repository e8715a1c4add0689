//! Which byte strings and which keys never share a hash.

use vstd::arithmetic::div_mod::{
    lemma_mod_bound, lemma_mod_mod, lemma_mod_multiples_vanish, lemma_mul_mod_noop, lemma_small_mod,
};
use vstd::arithmetic::power::{lemma_pow0, lemma_pow1, lemma_pow_adds, pow};
use vstd::prelude::*;

use crate::hashing::{
    gram_hash, lemma_key_ext, lemma_poly_concat, lemma_wrap_mul_add, lemma_wrap_sub, mixed, poly,
    wrap, HashKey, BASE, FOLD_SALT,
};

verus! {

/// Scaling by a factor with an inverse loses nothing.
proof fn lemma_scale(a: int, b: int, c: int, inverse: int, k: int)
    requires
        c * inverse == 1 + k * 0x1_0000_0000_0000_0000,
        wrap(a * c) == wrap(b * c),
    ensures
        wrap(a) == wrap(b),
{
    lemma_unscale(a, c, inverse, k);
    lemma_unscale(b, c, inverse, k);
}

proof fn lemma_unscale(a: int, c: int, inverse: int, k: int)
    requires
        c * inverse == 1 + k * 0x1_0000_0000_0000_0000,
    ensures
        wrap(wrap(a * c) * inverse + 0) == wrap(a),
{
    let m = 0x1_0000_0000_0000_0000int;
    lemma_wrap_mul_add(a * c, inverse, 0);
    assert((a * c) * inverse + 0 == m * (a * k) + a) by (nonlinear_arith)
        requires
            c * inverse == 1 + k * m,
    ;
    lemma_mod_multiples_vanish(a * k, a, m);
}

proof fn lemma_shift_30(x: u64, y: u64)
    by (bit_vector)
    requires
        x ^ (x >> 30) == y ^ (y >> 30),
    ensures
        x == y,
{
}

proof fn lemma_shift_27(x: u64, y: u64)
    by (bit_vector)
    requires
        x ^ (x >> 27) == y ^ (y >> 27),
    ensures
        x == y,
{
}

proof fn lemma_shift_31(x: u64, y: u64)
    by (bit_vector)
    requires
        x ^ (x >> 31) == y ^ (y >> 31),
    ensures
        x == y,
{
}

/// The finalizer maps no two values to one.
pub proof fn law_finalizer_is_injective(x: u64, y: u64)
    requires
        mixed(x) == mixed(y),
    ensures
        x == y,
{
    let (a1, a2) = (x ^ (x >> 30), y ^ (y >> 30));
    let (b1, b2) = (
        wrap(a1 * 0xBF58_476D_1CE4_E5B9) as u64,
        wrap(a2 * 0xBF58_476D_1CE4_E5B9) as u64,
    );
    let (c1, c2) = (b1 ^ (b1 >> 27), b2 ^ (b2 >> 27));
    let (d1, d2) = (
        wrap(c1 * 0x94D0_49BB_1331_11EB) as u64,
        wrap(c2 * 0x94D0_49BB_1331_11EB) as u64,
    );
    lemma_shift_31(d1, d2);
    lemma_scale(
        c1 as int,
        c2 as int,
        0x94D0_49BB_1331_11EB,
        0x3196_42B2_D24D_8EC3,
        2077064247507883091,
    );
    assert(c1 == c2);
    lemma_shift_27(b1, b2);
    lemma_scale(
        a1 as int,
        a2 as int,
        0xBF58_476D_1CE4_E5B9,
        0x96DE_1B17_3F11_9089,
        8125545580553827436,
    );
    assert(a1 == a2);
    lemma_shift_30(x, y);
}

proof fn lemma_xor_right(x: u64, j: u64, k: u64)
    by (bit_vector)
    requires
        x ^ j == x ^ k,
    ensures
        j == k,
{
}

proof fn lemma_xor_left(x: u64, y: u64, k: u64)
    by (bit_vector)
    requires
        x ^ k == y ^ k,
    ensures
        x == y,
{
}

/// Two different keys never give one hash on the same bytes.
pub proof fn law_keys_never_agree(bytes: Seq<u8>, j: HashKey, k: HashKey)
    requires
        j != k,
    ensures
        gram_hash(bytes, j) != gram_hash(bytes, k),
{
    let raw = wrap(poly(1, bytes)) as u64;
    if gram_hash(bytes, j) == gram_hash(bytes, k) {
        law_finalizer_is_injective(raw ^ j.secret(), raw ^ k.secret());
        lemma_xor_right(raw, j.secret(), k.secret());
        lemma_key_ext(j, k);
    }
}

/// A key and its folded twin never give one hash on the same bytes.
pub proof fn law_folded_space_is_disjoint(bytes: Seq<u8>, key: HashKey, folded: HashKey)
    requires
        folded.secret() == key.secret() ^ FOLD_SALT,
    ensures
        gram_hash(bytes, key) != gram_hash(bytes, folded),
{
    let k = key.secret();
    assert(k ^ 0xF01D_5A17_C0DE_D00D != k) by (bit_vector);
    law_keys_never_agree(bytes, key, folded);
}

/// Byte strings with different polynomial values have different hashes.
proof fn lemma_values_differ(u: Seq<u8>, v: Seq<u8>, key: HashKey)
    requires
        wrap(poly(1, u)) != wrap(poly(1, v)),
    ensures
        gram_hash(u, key) != gram_hash(v, key),
{
    let (x, y) = (wrap(poly(1, u)) as u64, wrap(poly(1, v)) as u64);
    if gram_hash(u, key) == gram_hash(v, key) {
        law_finalizer_is_injective(x ^ key.secret(), y ^ key.secret());
        lemma_xor_left(x, y, key.secret());
    }
}

/// Different values before the same bytes stay different behind them.
proof fn lemma_heads_differ(g: int, h: int, s: Seq<u8>)
    requires
        wrap(g) != wrap(h),
    ensures
        wrap(poly(g, s)) != wrap(poly(h, s)),
    decreases s.len(),
{
    if s.len() > 0 {
        let t = s.drop_last();
        let (x, y) = (poly(g, t), poly(h, t));
        let (b, c) = (BASE as int, s.last() as int);
        lemma_heads_differ(g, h, t);
        if wrap(x * b + c) == wrap(y * b + c) {
            lemma_wrap_sub(x * b + c, c);
            lemma_wrap_sub(y * b + c, c);
            assert(wrap(x * b) == wrap(y * b));
            lemma_scale(x, y, b, 0xF1DE_83E1_9937_733D, 10771413168148108919);
        }
    }
}

/// A change of one byte always changes the hash, under every key.
pub proof fn law_one_byte_changes_the_hash(u: Seq<u8>, v: Seq<u8>, i: int, key: HashKey)
    requires
        u.len() == v.len(),
        0 <= i < u.len(),
        u[i] != v[i],
        forall|k: int| 0 <= k < u.len() && k != i ==> #[trigger] u[k] == v[k],
    ensures
        gram_hash(u, key) != gram_hash(v, key),
{
    let head = u.take(i);
    let tail = u.skip(i + 1);
    let h = poly(1, head) * BASE;
    let (a, b) = (u[i] as int, v[i] as int);
    assert(u.take(i + 1).drop_last() =~= head);
    assert(v.take(i + 1).drop_last() =~= head);
    assert(v.skip(i + 1) =~= tail);
    assert(u.take(i + 1) + tail =~= u);
    assert(v.take(i + 1) + tail =~= v);
    lemma_poly_concat(1, u.take(i + 1), tail);
    lemma_poly_concat(1, v.take(i + 1), tail);
    assert(wrap(h + a) != wrap(h + b)) by {
        lemma_wrap_sub(h + a, h + b);
        assert(-256 < a - b < 256 && a != b);
    }
    lemma_heads_differ(h + a, h + b, tail);
    lemma_values_differ(u, v, key);
}

/// `n` zero bytes.
pub open spec fn zeros(n: nat) -> Seq<u8> {
    Seq::new(n, |i: int| 0u8)
}

proof fn lemma_zeros(n: nat)
    ensures
        poly(1, zeros(n)) == pow(BASE as int, n),
    decreases n,
{
    let b = BASE as int;
    if n == 0 {
        lemma_pow0(b);
    } else {
        lemma_zeros((n - 1) as nat);
        assert(zeros(n).drop_last() =~= zeros((n - 1) as nat));
        lemma_pow_adds(b, (n - 1) as nat, 1);
        lemma_pow1(b);
    }
}

/// The power of a sum of exponents, as a remainder.
proof fn lemma_pow_step(s: nat, t: nat, m: int)
    requires
        m > 0,
    ensures
        pow(BASE as int, s + t) % m == ((pow(BASE as int, s) % m) * (pow(BASE as int, t) % m)) % m,
{
    let b = BASE as int;
    lemma_pow_adds(b, s, t);
    lemma_mul_mod_noop(pow(b, s), pow(b, t), m);
}

/// The powers of two as exponents, as remainders modulo 512.
proof fn lemma_squares()
    ensures
        pow(BASE as int, 1) % 512 == 21,
        pow(BASE as int, 2) % 512 == 441,
        pow(BASE as int, 4) % 512 == 433,
        pow(BASE as int, 8) % 512 == 97,
        pow(BASE as int, 16) % 512 == 193,
        pow(BASE as int, 32) % 512 == 385,
        pow(BASE as int, 64) % 512 == 257,
{
    lemma_pow1(BASE as int);
    lemma_square(1, 21);
    lemma_square(2, 441);
    lemma_square(4, 433);
    lemma_square(8, 97);
    lemma_square(16, 193);
    lemma_square(32, 385);
}

proof fn lemma_square(s: nat, r: int)
    requires
        pow(BASE as int, s) % 512 == r,
    ensures
        pow(BASE as int, 2 * s) % 512 == (r * r) % 512,
{
    lemma_pow_step(s, s, 512);
}

/// A step whose square leaves 1 goes back and forth.
proof fn lemma_cycle(s: nat, c: int, m: int, q: nat)
    requires
        m > 1,
        pow(BASE as int, s) % m == c,
        (c * c) % m == 1,
    ensures
        pow(BASE as int, s * q) % m == if q % 2 == 0 {
            1
        } else {
            c
        },
    decreases q,
{
    if q == 0 {
        assert(s * q == 0) by (nonlinear_arith)
            requires
                q == 0,
        ;
        lemma_pow0(BASE as int);
        lemma_small_mod(1, m as nat);
    } else {
        let p = (q - 1) as nat;
        lemma_cycle(s, c, m, p);
        assert(s * q == s * p + s) by (nonlinear_arith)
            requires
                q == p + 1,
        ;
        lemma_pow_step(s * p, s, m);
        lemma_mod_bound(pow(BASE as int, s), m);
        lemma_small_mod(c as nat, m as nat);
        if p % 2 == 0 {
            assert(pow(BASE as int, s * q) % m == (1 * c) % m);
        } else {
            assert(pow(BASE as int, s * q) % m == (c * c) % m);
        }
    }
}

/// An odd multiple of a power of two is no exponent that gives 1.
proof fn lemma_odd_multiple(s: nat, q: nat, c: int, m: int, k: int, big: int)
    requires
        q % 2 == 1,
        m > 1,
        k > 0,
        big > 0,
        m * k == 512,
        m * big == 0x1_0000_0000_0000_0000,
        (pow(BASE as int, s) % 512) % m == c,
        (c * c) % m == 1,
        c != 1,
    ensures
        wrap(pow(BASE as int, s * q)) != 1,
{
    let x = pow(BASE as int, s * q);
    lemma_mod_mod(pow(BASE as int, s), m, k);
    lemma_cycle(s, c, m, q);
    lemma_mod_mod(x, m, big);
    lemma_small_mod(1, m as nat);
}

/// No power of the base up to the length of a gram is 1.
proof fn lemma_power_is_not_one(n: nat)
    requires
        1 <= n <= 100,
    ensures
        wrap(pow(BASE as int, n)) != 1,
{
    lemma_squares();
    if n % 2 == 1 {
        lemma_odd_multiple(1, n, 5, 8, 64, 0x2000_0000_0000_0000);
    } else if n % 4 == 2 {
        lemma_odd_multiple(2, n / 2, 9, 16, 32, 0x1000_0000_0000_0000);
    } else if n % 8 == 4 {
        lemma_odd_multiple(4, n / 4, 17, 32, 16, 0x800_0000_0000_0000);
    } else if n % 16 == 8 {
        lemma_odd_multiple(8, n / 8, 33, 64, 8, 0x400_0000_0000_0000);
    } else if n % 32 == 16 {
        lemma_odd_multiple(16, n / 16, 65, 128, 4, 0x200_0000_0000_0000);
    } else if n % 64 == 32 {
        lemma_odd_multiple(32, n / 32, 129, 256, 2, 0x100_0000_0000_0000);
    } else {
        lemma_odd_multiple(64, n / 64, 257, 512, 1, 0x80_0000_0000_0000);
    }
}

/// Leading zero bytes always change the hash, under every key.
pub proof fn law_leading_zeros_change_the_hash(n: nat, s: Seq<u8>, key: HashKey)
    requires
        1 <= n <= 100,
    ensures
        gram_hash(zeros(n) + s, key) != gram_hash(s, key),
{
    lemma_zeros(n);
    lemma_power_is_not_one(n);
    lemma_poly_concat(1, zeros(n), s);
    lemma_heads_differ(pow(BASE as int, n), 1, s);
    lemma_values_differ(zeros(n) + s, s, key);
}

} // verus!
