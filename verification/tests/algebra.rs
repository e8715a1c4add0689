//! The boolean query algebra.

use sngram::query::algebra::{grams_imply, Op, Query};
use sngram::query::gram::Gram;
use sngram::query::order::Order;
use sngram::query::strings::StringSet;

fn gram(b: &[u8]) -> Query {
    Query::grams(Op::And, StringSet::of(Gram::from(b)))
}

fn cleaned(items: &[&[u8]]) -> StringSet {
    let mut s = StringSet::new();
    for it in items {
        s.push(Gram::from(it));
    }
    s.clean(Order::Prefix);
    s
}

#[test]
fn test_and_absorbs_all_identity() {
    let actual = gram(b"abc").and(Query::all());
    assert_eq!(actual, gram(b"abc"));
}

#[test]
fn test_or_absorbs_none_identity() {
    let actual = gram(b"abc").or(Query::none());
    assert_eq!(actual, gram(b"abc"));
}

#[test]
fn test_and_with_none_is_none() {
    let actual = gram(b"abc").and(Query::none());
    assert_eq!(actual.op, Op::Nothing);
}

#[test]
fn test_or_with_all_is_all() {
    let actual = gram(b"abc").or(Query::all());
    assert_eq!(actual.op, Op::All);
}

#[test]
fn test_and_merges_atoms_into_one_node() {
    let actual = gram(b"abc").and(gram(b"def"));
    assert_eq!(actual.op, Op::And);
    assert_eq!(actual.grams, cleaned(&[b"abc", b"def"]));
    assert!(actual.sub.is_empty());
}

#[test]
fn test_duplicate_and_collapses() {
    // abc AND abc is abc (implication both ways).
    let actual = gram(b"abc").and(gram(b"abc"));
    assert_eq!(actual, gram(b"abc"));
}

#[test]
fn test_or_of_same_atom_collapses() {
    let actual = gram(b"abc").or(gram(b"abc"));
    assert_eq!(actual, gram(b"abc"));
}

#[test]
fn test_factor_common_gram_out_of_ors() {
    // (abc|def) AND (abc|ghi) factors to abc | (def AND ghi).
    let left = gram(b"abc").or(gram(b"def"));
    let right = gram(b"abc").or(gram(b"ghi"));
    let actual = left.and(right);
    // Common "abc" implies each side, so the AND collapses to "abc".
    assert!(grams_imply(
        &StringSet::of(Gram::from(&b"abc"[..])),
        &actual
    ));
}

#[test]
fn test_implies_subset_or() {
    let narrow = Query::grams(Op::Or, cleaned(&[b"abc"]));
    let wide = Query::grams(Op::Or, cleaned(&[b"abc", b"def"]));
    assert!(narrow.implies(&wide));
    assert!(!wide.implies(&narrow));
}

/// Whether a document with exactly these grams satisfies the query.
fn holds(q: &Query, present: &[&[u8]]) -> bool {
    let has = |g: &Gram| present.contains(&g.as_bytes());
    match q.op {
        Op::All => true,
        Op::Nothing => false,
        Op::And => q.grams.as_slice().iter().all(has) && q.sub.iter().all(|s| holds(s, present)),
        Op::Or => q.grams.as_slice().iter().any(has) || q.sub.iter().any(|s| holds(s, present)),
    }
}

#[test]
fn and_or_keep_their_truth_tables() {
    let names: [&[u8]; 3] = [b"abc", b"def", b"ghi"];
    let build: [fn() -> Query; 5] = [
        || gram(b"abc"),
        || gram(b"abc").or(gram(b"def")),
        || gram(b"abc").or(gram(b"ghi")),
        || gram(b"def").and(gram(b"ghi")),
        || gram(b"abc").or(gram(b"def").and(gram(b"ghi"))),
    ];
    for mask in 0..8usize {
        let present: Vec<&[u8]> = (0..3).filter(|i| mask >> i & 1 == 1).map(|i| names[i]).collect();
        for x in build {
            for y in build {
                let (a, b) = (holds(&x(), &present), holds(&y(), &present));
                assert_eq!(holds(&x().and(y()), &present), a && b);
                assert_eq!(holds(&x().or(y()), &present), a || b);
                if x().implies(&y()) && a {
                    assert!(b, "implication must be sound");
                }
            }
        }
    }
}

#[test]
fn weight_counts_every_gram_of_the_tree() {
    assert_eq!(Query::all().weight(), 0);
    assert_eq!(gram(b"abc").and(gram(b"def")).weight(), 2);
    let nested = gram(b"abc").or(gram(b"def").and(gram(b"ghi")));
    assert_eq!(nested.weight(), 3);
}
