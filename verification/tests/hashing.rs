//! Gram hashes.

use sngram::extract::MAX_LEN;
use sngram::hashing::{
    from_prefixes, from_prefixes_keyed, hash_bytes, hash_bytes_keyed, step, HashKey, BASE,
};

fn prefixes_of(doc: &[u8]) -> Vec<u64> {
    let mut prefix = Vec::with_capacity(doc.len());
    let mut h = 0u64;
    for &b in doc {
        h = h.wrapping_mul(BASE).wrapping_add(u64::from(b));
        prefix.push(h);
    }
    prefix
}

fn before(prefix: &[u64], start: usize) -> u64 {
    if start == 0 {
        0
    } else {
        prefix[start - 1]
    }
}

#[test]
fn prefix_identity_holds() {
    let doc = b"fn main() { let x = foo_bar(42); }";
    let prefix = prefixes_of(doc);
    for start in 0..doc.len() {
        for end in start + 1..=doc.len().min(start + MAX_LEN) {
            assert_eq!(
                from_prefixes(prefix[end - 1], before(&prefix, start), end - start),
                hash_bytes(&doc[start..end]),
                "substring identity failed at {start}..{end}"
            );
        }
    }
}

#[test]
fn distinct_grams_hash_differently() {
    let grams: &[&[u8]] = &[b"abc", b"abd", b"bac", b"abca", b"aabc", b"xyz"];
    for (i, a) in grams.iter().enumerate() {
        for b in &grams[i + 1..] {
            assert_ne!(hash_bytes(a), hash_bytes(b), "{a:?} vs {b:?}");
        }
    }
}

#[test]
fn leading_zero_bytes_change_the_hash() {
    assert_ne!(hash_bytes(b"\x00abc"), hash_bytes(b"abc"));
    assert_ne!(hash_bytes(b"\x00\x00abc"), hash_bytes(b"\x00abc"));
    assert_ne!(hash_bytes(b"\x00\x00\x00"), hash_bytes(b"\x00\x00\x00\x00"));
}

#[test]
fn unkeyed_equals_legacy_values() {
    for gram in [&b"abc"[..], b"sched_clock", b"\x00\xff"] {
        assert_eq!(hash_bytes(gram), hash_bytes_keyed(gram, HashKey::unkeyed()));
    }
}

#[test]
fn keyed_prefix_identity_holds() {
    let key = HashKey::new(0xDEAD_BEEF_CAFE_F00D);
    let doc = b"fn main() { let x = foo_bar(42); }";
    let prefix = prefixes_of(doc);
    for start in 0..doc.len() {
        for end in start + 1..=doc.len().min(start + MAX_LEN) {
            assert_eq!(
                from_prefixes_keyed(prefix[end - 1], before(&prefix, start), end - start, key),
                hash_bytes_keyed(&doc[start..end], key),
                "keyed substring identity failed at {start}..{end}"
            );
        }
    }
}

#[test]
fn distinct_keys_produce_distinct_spaces() {
    let a = HashKey::new(1);
    let b = HashKey::new(2);
    assert_ne!(hash_bytes_keyed(b"abc", a), hash_bytes_keyed(b"abc", b));
    assert_ne!(hash_bytes_keyed(b"abc", a), hash_bytes(b"abc"));
}

#[test]
fn folded_space_is_disjoint_per_key() {
    let key = HashKey::new(7);
    assert_ne!(
        hash_bytes_keyed(b"abc", key),
        hash_bytes_keyed(b"abc", key.folded())
    );
    assert_ne!(
        hash_bytes(b"abc"),
        hash_bytes_keyed(b"abc", HashKey::unkeyed().folded())
    );
    assert_eq!(key.folded().folded(), key);
}

#[test]
fn step_rolls_one_byte_into_the_prefix() {
    assert_eq!(step(0, 7), 7);
    assert_eq!(step(1, 0), BASE);
    assert_eq!(step(2, 5), BASE.wrapping_mul(2).wrapping_add(5));
    let doc = b"abcdef";
    let rolled = doc.iter().fold(0u64, |h, &b| step(h, b));
    assert_eq!(rolled, *prefixes_of(doc).last().unwrap());
}

#[test]
fn hash_follows_the_polynomial_and_the_finalizer() {
    let mut h = 1u64;
    for &b in b"abc" {
        h = h.wrapping_mul(BASE).wrapping_add(u64::from(b));
    }
    let mut z = h;
    z = (z ^ (z >> 30)).wrapping_mul(0xBF58_476D_1CE4_E5B9);
    z = (z ^ (z >> 27)).wrapping_mul(0x94D0_49BB_1331_11EB);
    assert_eq!(hash_bytes(b"abc"), z ^ (z >> 31));
}

#[test]
fn a_changed_byte_always_changes_the_hash() {
    let key = HashKey::new(0x5eed);
    let text = b"sched_clock_init";
    for i in 0..text.len() {
        for b in 0..=255u8 {
            let mut other = text.to_vec();
            other[i] = b;
            let same = b == text[i];
            assert_eq!(hash_bytes(&other) == hash_bytes(text), same);
            assert_eq!(
                hash_bytes_keyed(&other, key) == hash_bytes_keyed(text, key),
                same
            );
        }
    }
}

#[test]
fn leading_zeros_and_other_keys_always_change_the_hash() {
    let text = b"abc";
    for zeros in 1..=MAX_LEN {
        let mut longer = vec![0u8; zeros];
        longer.extend_from_slice(text);
        assert_ne!(hash_bytes(&longer), hash_bytes(text), "{zeros} zeros");
    }
    for secret in [1u64, 2, 1 << 40, u64::MAX] {
        assert_ne!(hash_bytes_keyed(text, HashKey::new(secret)), hash_bytes(text));
    }
}
