//! Sets of byte strings in prefix and suffix order.

use std::cmp::Ordering;

use sngram::query::gram::Gram;
use sngram::query::order::{cmp_in, Order};
use sngram::query::strings::StringSet;

fn gram(bytes: &[u8]) -> Gram {
    Gram::from(bytes)
}

fn set(items: &[&[u8]]) -> StringSet {
    let mut s = StringSet::new();
    for it in items {
        s.push(Gram::from(it));
    }
    s
}

fn cleaned(items: &[&[u8]], order: Order) -> StringSet {
    let mut out = set(items);
    out.clean(order);
    out
}

/// Sorting from scratch, the shape shortcuts must agree with.
fn resorted(items: &[Gram], order: Order) -> Vec<Gram> {
    let mut out = items.to_vec();
    out.sort_by(|a, b| cmp_in(order, a, b));
    out.dedup();
    out
}

fn clean_prefix_sorts_and_dedups() {
    let mut fixture = set(&[b"def", b"abc", b"abc"]);
    fixture.clean(Order::Prefix);
    let expected = set(&[b"abc", b"def"]);
    assert_eq!(fixture, expected);
}

#[test]
fn mod_test_clean_prefix_sorts_and_dedups() {
    clean_prefix_sorts_and_dedups();
}

#[test]
fn strings_test_clean_prefix_sorts_and_dedups() {
    clean_prefix_sorts_and_dedups();
}

fn clean_suffix_groups_shared_endings() {
    let mut fixture = set(&[b"xbc", b"abc", b"aac"]);
    fixture.clean(Order::Suffix);
    // all share "bc"/"ac"; suffix order sorts by trailing bytes
    let expected = set(&[b"aac", b"abc", b"xbc"]);
    assert_eq!(fixture, expected);
}

#[test]
fn mod_test_clean_suffix_groups_shared_endings() {
    clean_suffix_groups_shared_endings();
}

#[test]
fn strings_test_clean_suffix_groups_shared_endings() {
    clean_suffix_groups_shared_endings();
}

fn shortcuts_match_a_full_resort() {
    for order in [Order::Prefix, Order::Suffix] {
        let left = cleaned(&[b"aq", b"bq", b"zz", b"q"], order);
        let right = cleaned(&[b"aq", b"cq", b"a"], order);
        let mut joint = left.as_slice().to_vec();
        joint.extend_from_slice(right.as_slice());
        assert_eq!(
            left.clone().union(&right, order).as_slice(),
            resorted(&joint, order)
        );
        let crossed = left.cross(&right, order);
        assert_eq!(crossed.as_slice(), resorted(crossed.as_slice(), order));
    }
    let fixed = cleaned(&[b"aa", b"ab", b"zz"], Order::Prefix);
    let ragged = cleaned(&[b"a", b"aa"], Order::Prefix);
    assert_eq!(fixed.cross_len(&ragged), Some(6));
    // "a"+"aa" and "aa"+"a" collide, so no count can be trusted up front
    assert_eq!(ragged.cross_len(&ragged), None);
    assert_eq!(ragged.cross(&ragged, Order::Prefix).len(), 3);
}

#[test]
fn mod_shape_shortcuts_match_a_full_resort() {
    shortcuts_match_a_full_resort();
}

#[test]
fn strings_shape_shortcuts_match_a_full_resort() {
    shortcuts_match_a_full_resort();
}

/// Cut one byte at a time until the set fits, reporting the last length that
/// did.
fn shrink_to_fit(t: &StringSet, order: Order, hi: usize, target: usize) -> Option<usize> {
    let mut cut = t.clone();
    for keep in (1..=hi).rev() {
        cut.truncate(order, keep);
        cut.clean(order);
        if cut.len() <= target {
            return Some(keep);
        }
    }
    None
}

/// A spread of sets whose truncations collapse at different lengths.
fn fit_corpus() -> Vec<StringSet> {
    let mut corpus = vec![StringSet::new(), set(&[b""]), set(&[b"abcdef"])];
    let mut wide = StringSet::new();
    let mut ragged = StringSet::new();
    for a in b'a'..=b'f' {
        for b in b'a'..=b'f' {
            wide.push(Gram::from(&[a, b, b'q', a][..]));
            ragged.push(Gram::from(&[a; 1][..]));
            ragged.push(Gram::from(&[a, b, b'z'][..]));
        }
    }
    corpus.push(wide);
    corpus.push(ragged);
    corpus
}

/// Every bound one set is asked for agrees with the shrinking loop.
fn check_fits(t: &StringSet, order: Order) {
    for hi in 0..6 {
        for target in 1..8 {
            assert_eq!(
                t.longest_fit(order, hi, target),
                shrink_to_fit(t, order, hi, target),
                "{order:?} hi {hi} target {target} {:?}",
                t.as_slice()
            );
        }
    }
}

#[test]
fn longest_fit_matches_shrinking_one_byte_at_a_time() {
    for order in [Order::Prefix, Order::Suffix] {
        for mut t in fit_corpus() {
            t.clean(order);
            check_fits(&t, order);
        }
    }
}

fn contains_agrees_with_a_scan() {
    let mut ordered = cleaned(&[b"aa", b"bb", b"cc"], Order::Prefix);
    for probe in [&b"aa"[..], b"bb", b"cc", b"ab", b"", b"zz"] {
        let probe = Gram::from(probe);
        let scanned = ordered.as_slice().contains(&probe);
        assert_eq!(ordered.contains(&probe), scanned, "{probe:?}");
    }
    // the recorded order is what lets the search skip ahead
    ordered.push(Gram::from(&b"aa"[..]));
    assert!(ordered.contains(&Gram::from(&b"aa"[..])));
}

#[test]
fn mod_contains_agrees_with_a_scan_of_the_members() {
    contains_agrees_with_a_scan();
}

#[test]
fn strings_contains_agrees_with_a_scan_of_the_members() {
    contains_agrees_with_a_scan();
}

fn cross_is_cartesian_concat() {
    let actual = set(&[b"ab", b"cd"]).cross(&set(&[b"x", b"y"]), Order::Prefix);
    let expected = set(&[b"abx", b"aby", b"cdx", b"cdy"]);
    assert_eq!(actual, expected);
}

#[test]
fn mod_test_cross_is_cartesian_concat() {
    cross_is_cartesian_concat();
}

#[test]
fn strings_test_cross_is_cartesian_concat() {
    cross_is_cartesian_concat();
}

fn union_merges_and_cleans() {
    let actual = set(&[b"b", b"a"]).union(&set(&[b"c", b"a"]), Order::Prefix);
    let expected = set(&[b"a", b"b", b"c"]);
    assert_eq!(actual, expected);
}

#[test]
fn mod_test_union_merges_and_cleans() {
    union_merges_and_cleans();
}

#[test]
fn strings_test_union_merges_and_cleans() {
    union_merges_and_cleans();
}

fn min_len_is_the_shortest() {
    assert_eq!(set(&[b"a", b"abcd", b"ab"]).min_len(), 1);
    assert_eq!(StringSet::new().min_len(), 0);
}

#[test]
fn mod_test_min_len() {
    min_len_is_the_shortest();
}

#[test]
fn strings_test_min_len() {
    min_len_is_the_shortest();
}

#[test]
fn test_empty_min_len_is_zero() {
    assert_eq!(StringSet::new().min_len(), 0);
}

fn is_subset_of_merges_both_sides() {
    let empty = StringSet::new();
    let sub = cleaned(&[b"a", b"c"], Order::Prefix);
    let tail = cleaned(&[b"z"], Order::Prefix);
    let sup = cleaned(&[b"a", b"b", b"c", b"z"], Order::Prefix);

    assert!(sub.is_subset_of(sup.as_slice()));
    assert!(!sup.is_subset_of(sub.as_slice()));
    assert!(empty.is_subset_of(empty.as_slice()));
    assert!(empty.is_subset_of(sup.as_slice()));
    assert!(tail.is_subset_of(sup.as_slice()));
    assert!(!sup.is_subset_of(tail.as_slice()));
}

#[test]
fn mod_test_is_subset_of() {
    is_subset_of_merges_both_sides();
}

#[test]
fn strings_test_is_subset_of() {
    is_subset_of_merges_both_sides();
}

fn clean_suffix_handles_short_members() {
    let fixture = cleaned(&[b"ba", b"", b"a", b"ca", b"a"], Order::Suffix);
    let expected = set(&[b"", b"a", b"ba", b"ca"]);
    assert_eq!(fixture, expected);
}

#[test]
fn mod_test_clean_suffix_handles_empty_and_single_byte_members() {
    clean_suffix_handles_short_members();
}

#[test]
fn strings_test_clean_suffix_handles_empty_and_single_byte_members() {
    clean_suffix_handles_short_members();
}

#[test]
fn suffix_order_reads_from_the_tail_then_the_length() {
    assert_eq!(
        cmp_in(Order::Suffix, &gram(b"aac"), &gram(b"abc")),
        Ordering::Less
    );
    assert_eq!(
        cmp_in(Order::Suffix, &gram(b"bc"), &gram(b"abc")),
        Ordering::Less
    );
    assert_eq!(
        cmp_in(Order::Suffix, &gram(b"abc"), &gram(b"abc")),
        Ordering::Equal
    );
}

#[test]
fn truncation_keeps_both_orders_sorted() {
    let words: [&[u8]; 6] = [b"a", b"ab", b"abc", b"a\0c", b"zabc", b"yab"];
    for order in [Order::Prefix, Order::Suffix] {
        let mut sorted: Vec<Gram> = words.iter().map(|w| gram(w)).collect();
        sorted.sort_by(|a, b| cmp_in(order, a, b));
        for keep in 1..5 {
            let cut: Vec<Gram> = sorted.iter().map(|s| truncate(s, order, keep)).collect();
            assert!(
                cut.windows(2)
                    .all(|pair| cmp_in(order, &pair[0], &pair[1]).is_le()),
                "{order:?} keep {keep}"
            );
        }
    }
}

fn truncate(s: &Gram, order: Order, keep: usize) -> Gram {
    if s.len() <= keep {
        return s.clone();
    }
    let bytes = s.as_bytes();
    match order {
        Order::Prefix => gram(&bytes[..keep]),
        Order::Suffix => gram(&bytes[bytes.len() - keep..]),
    }
}

#[test]
fn folding_lowers_ascii_letters_only() {
    let folded = set(&[b"AbC\xC9", b"[Z]"]).fold_ascii();
    assert_eq!(folded, set(&[b"[z]", b"abc\xC9"]));
}

#[test]
fn lengths_of_a_set() {
    let s = set(&[b"a", b"abcd", b"ab"]);
    assert_eq!((s.max_len(), s.byte_len(), s.len()), (4, 7, 3));
    assert!(!s.is_empty());
    assert_eq!(StringSet::of(gram(b"xy")).into_vec(), vec![gram(b"xy")]);
}

#[test]
fn retain_keeps_what_the_test_accepts() {
    let mut s = set(&[b"a", b"abcd", b"ab"]);
    s.retain(|g| g.len() > 1);
    assert_eq!(s, set(&[b"abcd", b"ab"]));
}
