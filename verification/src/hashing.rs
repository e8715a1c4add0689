//! Rolling polynomial gram hashing.
//!
//! A prefix hash `H[i] = H[i-1] * BASE + b[i]` (wrapping, `H[-1] = 0`) is
//! maintained while scanning, so any gram's hash costs no pass over its
//! bytes: the raw polynomial value of `b[s..e]` is
//! `H[e-1] - H[s-1] * BASE^(e-s)`, then one avalanche mix for distribution.
//! Hashing the gram's bytes directly with [`hash_bytes`] yields the identical
//! value, which is what keeps index-side and query-side keys consistent.

pub mod distinct;

use vstd::arithmetic::div_mod::{lemma_fundamental_div_mod, lemma_mod_multiples_vanish};
use vstd::arithmetic::power::{lemma_pow0, pow};
use vstd::prelude::*;

use crate::extract::MAX_LEN;

verus! {

/// Polynomial base; odd, so multiplication permutes the u64 ring.
pub const BASE: u64 = 0x9E37_79B9_7F4A_7C15;

/// Salt separating the folded gram space from the primary space under any key.
pub const FOLD_SALT: u64 = 0xF01D_5A17_C0DE_D00D;

/// The residue of `n` modulo 2^64.
pub open spec fn wrap(n: int) -> int {
    n % 0x1_0000_0000_0000_0000
}

/// The polynomial with the bytes of `s` as coefficients after the leading
/// coefficient `h`, at `BASE`.
pub open spec fn poly(h: int, s: Seq<u8>) -> int
    decreases s.len(),
{
    if s.len() == 0 {
        h
    } else {
        poly(h, s.drop_last()) * BASE + s.last()
    }
}

/// The prefix hash after the bytes of `s`.
pub open spec fn prefix_hash(s: Seq<u8>) -> u64 {
    wrap(poly(0, s)) as u64
}

/// The splitmix64 finalizer.
pub open spec fn mixed(z: u64) -> u64 {
    let a = z ^ (z >> 30);
    let b = wrap(a * 0xBF58_476D_1CE4_E5B9) as u64;
    let c = b ^ (b >> 27);
    let d = wrap(c * 0x94D0_49BB_1331_11EB) as u64;
    d ^ (d >> 31)
}

/// The hash of a gram's bytes in the space of a secret.
pub open spec fn space_hash(bytes: Seq<u8>, secret: u64) -> u64 {
    mixed((wrap(poly(1, bytes)) as u64) ^ secret)
}

/// The hash of a gram's bytes under a key.
pub open spec fn gram_hash(bytes: Seq<u8>, key: HashKey) -> u64 {
    space_hash(bytes, key.secret())
}

proof fn lemma_wrap_mul_add(x: int, b: int, c: int)
    ensures
        wrap(wrap(x) * b + c) == wrap(x * b + c),
{
    let m = 0x1_0000_0000_0000_0000int;
    let q = x / m;
    lemma_fundamental_div_mod(x, m);
    assert(x * b + c == m * (q * b) + (wrap(x) * b + c)) by (nonlinear_arith)
        requires
            x == m * q + wrap(x),
    ;
    lemma_mod_multiples_vanish(q * b, wrap(x) * b + c, m);
}

proof fn lemma_wrap_sub(x: int, y: int)
    ensures
        wrap(wrap(x) - wrap(y)) == wrap(x - y),
{
    let m = 0x1_0000_0000_0000_0000int;
    lemma_fundamental_div_mod(x, m);
    lemma_fundamental_div_mod(y, m);
    let q = x / m - y / m;
    assert(x - y == m * q + (wrap(x) - wrap(y))) by (nonlinear_arith)
        requires
            x == m * (x / m) + wrap(x),
            y == m * (y / m) + wrap(y),
            q == x / m - y / m,
    ;
    lemma_mod_multiples_vanish(q, wrap(x) - wrap(y), m);
}

/// A leading coefficient contributes its multiple of the power.
proof fn lemma_poly_head(h: int, s: Seq<u8>)
    ensures
        poly(h, s) == h * pow(BASE as int, s.len()) + poly(0, s),
    decreases s.len(),
{
    if s.len() == 0 {
        lemma_pow0(BASE as int);
    } else {
        let t = s.drop_last();
        lemma_poly_head(h, t);
        let b = BASE as int;
        reveal(pow);
        assert(pow(b, s.len()) == b * pow(b, t.len()));
        let p = pow(b, t.len());
        let z = poly(0, t);
        assert((h * p + z) * b == h * (b * p) + z * b) by (nonlinear_arith);
    }
}

/// The polynomial of a concatenation continues that of its head.
proof fn lemma_poly_concat(h: int, a: Seq<u8>, b: Seq<u8>)
    ensures
        poly(h, a + b) == poly(poly(h, a), b),
    decreases b.len(),
{
    if b.len() == 0 {
        assert(a + b =~= a);
    } else {
        assert((a + b).drop_last() =~= a + b.drop_last());
        lemma_poly_concat(h, a, b.drop_last());
    }
}

/// The hash of a substring comes out of the prefix hashes at its two ends.
pub proof fn law_prefix_identity(doc: Seq<u8>, start: int, end: int)
    requires
        0 <= start <= end <= doc.len(),
    ensures
        wrap(poly(1, doc.subrange(start, end))) == wrap(
            prefix_hash(doc.take(end)) - wrap((prefix_hash(doc.take(start)) - 1) * pow(BASE as int, (end - start) as nat)),
        ),
{
    let head = doc.take(start);
    let gram = doc.subrange(start, end);
    let n = (end - start) as nat;
    let p = pow(BASE as int, n);
    assert(head + gram =~= doc.take(end));
    lemma_poly_concat(0, head, gram);
    let h = poly(0, head);
    let e = poly(0, doc.take(end));
    lemma_poly_head(h, gram);
    lemma_poly_head(1, gram);
    assert(poly(1, gram) == e - (h - 1) * p) by (nonlinear_arith)
        requires
            e == h * p + poly(0, gram),
            poly(1, gram) == 1 * p + poly(0, gram),
    ;
    lemma_wrap_mul_add(h, p, -p);
    assert(wrap(h) * p + -p == (wrap(h) - 1) * p) by (nonlinear_arith);
    assert(h * p + -p == (h - 1) * p) by (nonlinear_arith);
    lemma_wrap_sub(e, (h - 1) * p);
}

/// splitmix64 finalizer: full-avalanche mix of the raw polynomial value.
fn mix(z: u64) -> (m: u64)
    ensures
        m == mixed(z),
{
    let a: u64 = z ^ (z >> 30);
    let b: u64 = a.wrapping_mul(0xBF58_476D_1CE4_E5B9);
    let c: u64 = b ^ (b >> 27);
    let d: u64 = c.wrapping_mul(0x94D0_49BB_1331_11EB);
    d ^ (d >> 31)
}

/// Deployment key folded into the raw polynomial value before the finalizer.
///
/// The polynomial itself is adversarially forgeable, so a deployment indexing
/// hostile content picks a secret key: every gram hash becomes
/// `mix(raw ^ key)`, while the rolling identity (`from_prefixes` equals
/// `hash_bytes` for the same bytes) is untouched because the key lands after
/// the prefix subtraction. [`HashKey::unkeyed`] leaves the raw value as it is.
#[derive(Debug, Clone, Copy, PartialEq, Eq, Hash, Structural)]
pub struct HashKey(u64);

impl Default for HashKey {
    fn default() -> (key: HashKey)
        ensures
            key == unkeyed(),
    {
        HashKey(0)
    }
}

impl HashKey {
    /// The unkeyed space: nothing is combined into the raw hash.
    pub fn unkeyed() -> (key: HashKey)
        ensures
            key == unkeyed(),
    {
        HashKey(0)
    }

    /// The value combined into the raw hash.
    pub closed spec fn secret(self) -> u64 {
        self.0
    }

    /// Key from a deployment secret.
    pub fn new(secret: u64) -> (key: HashKey)
        ensures
            key.secret() == secret,
    {
        HashKey(secret)
    }

    /// The folded-twin space of this key, tagging case-folded gram hashes.
    pub fn folded(self) -> (key: HashKey)
        ensures
            key.secret() == self.secret() ^ FOLD_SALT,
    {
        HashKey(self.0 ^ FOLD_SALT)
    }

    /// The hash of a gram's bytes in this space.
    pub fn hash_bytes(self, bytes: &[u8]) -> (hash: u64)
        ensures
            hash == gram_hash(bytes@, self),
    {
        hash_bytes_keyed(bytes, self)
    }
}

/// The unkeyed space.
pub closed spec fn unkeyed() -> HashKey {
    HashKey(0)
}

/// The unkeyed space combines nothing into the raw hash.
pub proof fn lemma_unkeyed()
    ensures
        unkeyed().secret() == 0,
{
}

/// Two keys with the same secret are the same key.
pub proof fn lemma_key_ext(a: HashKey, b: HashKey)
    requires
        a.secret() == b.secret(),
    ensures
        a == b,
{
}

/// Folding a key twice gives the key back, and a folded key is never the key
/// itself.
pub proof fn law_folded_twice(key: HashKey, once: HashKey, twice: HashKey)
    requires
        once.secret() == key.secret() ^ FOLD_SALT,
        twice.secret() == once.secret() ^ FOLD_SALT,
    ensures
        twice == key,
        once != key,
{
    let k = key.secret();
    assert((k ^ 0xF01D_5A17_C0DE_D00D) ^ 0xF01D_5A17_C0DE_D00D == k) by (bit_vector);
    assert(k ^ 0xF01D_5A17_C0DE_D00D != k) by (bit_vector);
}

/// Advance the prefix hash by one byte: `H[i] = H[i-1] * BASE + b[i]`.
pub fn step(h: u64, byte: u8) -> (next: u64)
    ensures
        next == wrap(h * BASE + byte),
{
    let next: u64 = h.wrapping_mul(BASE).wrapping_add(byte as u64);
    proof {
        lemma_wrap_add(h * BASE, byte as int);
    }
    next
}

proof fn lemma_wrap_add(x: int, c: int)
    requires
        0 <= c < 256,
    ensures
        wrap(x + c) == if wrap(x) + c >= 0x1_0000_0000_0000_0000 {
            wrap(x) + c - 0x1_0000_0000_0000_0000
        } else {
            wrap(x) + c
        },
{
    lemma_wrap_mul_add(x, 1, c);
}

/// Advancing a prefix hash follows the prefix.
pub proof fn lemma_step(s: Seq<u8>, byte: u8)
    ensures
        prefix_hash(s.push(byte)) == wrap(prefix_hash(s) * BASE + byte),
        prefix_hash(Seq::<u8>::empty()) == 0,
{
    assert(s.push(byte).drop_last() =~= s);
    lemma_wrap_mul_add(poly(0, s), BASE as int, byte as int);
}

/// `BASE^len`, wrapping.
fn base_power(len: usize) -> (p: u64)
    ensures
        p == wrap(pow(BASE as int, len as nat)),
{
    let mut p: u64 = 1;
    let mut k: usize = 0;
    proof {
        lemma_pow0(BASE as int);
    }
    while k < len
        invariant
            k <= len,
            p == wrap(pow(BASE as int, k as nat)),
        decreases len - k,
    {
        proof {
            let b = BASE as int;
            let q = pow(b, k as nat);
            reveal(pow);
            assert(pow(b, (k + 1) as nat) == b * q);
            lemma_wrap_mul_add(q, b, 0);
            assert(q * b == b * q) by (nonlinear_arith);
        }
        p = p.wrapping_mul(BASE);
        k = k + 1;
    }
    p
}

/// Gram hash from prefix hashes: `h_end` is `H[end-1]`, `h_before_start` is
/// `H[start-1]` (0 when the gram starts the document), `len` the gram length.
///
/// The `- 1` plants an implicit `0x01` sentinel before the gram (the raw
/// value becomes `BASE^len + poly(gram)`), so grams differing only in length
/// or leading zero bytes cannot collide in the raw value.
pub fn from_prefixes(h_end: u64, h_before_start: u64, len: usize) -> (hash: u64)
    requires
        len <= MAX_LEN,
    ensures
        hash == prefixes_hash(h_end, h_before_start, len as nat, unkeyed()),
{
    from_prefixes_keyed(h_end, h_before_start, len, HashKey::unkeyed())
}

/// The hash that two prefix hashes give for the `len` bytes between them.
pub open spec fn prefixes_hash(h_end: u64, h_before: u64, len: nat, key: HashKey) -> u64 {
    mixed((wrap(h_end - wrap((h_before - 1) * pow(BASE as int, len))) as u64) ^ key.secret())
}

/// Keyed variant of [`from_prefixes`]; the key applies after the prefix
/// subtraction, so the rolling identity with [`hash_bytes_keyed`] holds.
pub fn from_prefixes_keyed(
    h_end: u64,
    h_before_start: u64,
    len: usize,
    key: HashKey,
) -> (hash: u64)
    requires
        len <= MAX_LEN,
    ensures
        hash == prefixes_hash(h_end, h_before_start, len as nat, key),
{
    let p: u64 = base_power(len);
    let below: u64 = h_before_start.wrapping_sub(1);
    let tail: u64 = below.wrapping_mul(p);
    let raw: u64 = h_end.wrapping_sub(tail);
    proof {
        let full = pow(BASE as int, len as nat);
        let h = h_before_start as int;
        assert(below == wrap(h - 1)) by {
            lemma_mod_multiples_vanish(1, h - 1, 0x1_0000_0000_0000_0000);
        }
        lemma_wrap_mul_add(full, below as int, 0);
        assert(wrap(full) * below == below * wrap(full)) by (nonlinear_arith);
        lemma_wrap_mul_add(h - 1, full, 0);
        assert(full * below == below * full) by (nonlinear_arith);
        assert(tail == wrap((h - 1) * full));
        assert(raw == wrap(h_end - tail)) by {
            lemma_mod_multiples_vanish(1, h_end - tail, 0x1_0000_0000_0000_0000);
        }
    }
    mix(raw ^ key.0)
}

/// Hash a gram's bytes directly; identical to the rolling value a scan emits
/// for the same bytes. The fold seeds at 1, the implicit sentinel matching
/// [`from_prefixes`].
pub fn hash_bytes(bytes: &[u8]) -> (hash: u64)
    ensures
        hash == gram_hash(bytes@, unkeyed()),
{
    hash_bytes_keyed(bytes, HashKey::unkeyed())
}

/// Keyed variant of [`hash_bytes`]; equals the keyed rolling hash over the
/// same bytes and key.
pub fn hash_bytes_keyed(bytes: &[u8], key: HashKey) -> (hash: u64)
    ensures
        hash == gram_hash(bytes@, key),
{
    let mut h: u64 = 1;
    let mut i: usize = 0;
    while i < bytes.len()
        invariant
            i <= bytes@.len(),
            h == wrap(poly(1, bytes@.take(i as int))),
        decreases bytes@.len() - i,
    {
        proof {
            let t = bytes@.take(i as int);
            assert(bytes@.take(i + 1).drop_last() =~= t);
            lemma_wrap_mul_add(poly(1, t), BASE as int, bytes@[i as int] as int);
        }
        h = step(h, bytes[i]);
        i = i + 1;
    }
    assert(bytes@.take(i as int) =~= bytes@);
    mix(h ^ key.0)
}

/// The rolling identity: the hash computed from the prefix hashes around a
/// substring equals the hash of the substring's bytes, under every key.
pub proof fn law_rolling_hash(doc: Seq<u8>, start: int, end: int, key: HashKey)
    requires
        0 <= start <= end <= doc.len(),
    ensures
        prefixes_hash(
            prefix_hash(doc.take(end)),
            prefix_hash(doc.take(start)),
            (end - start) as nat,
            key,
        ) == gram_hash(doc.subrange(start, end), key),
{
    law_prefix_identity(doc, start, end);
}

} // verus!
