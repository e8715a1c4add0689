//! The parts of the regex analysis.

use regex_syntax::hir::{Class, HirKind};

use sngram::query::analyze::boundary::{
    byte_boundary_bytes, utf8_boundary_bytes, ByteSet, MAX_BOUNDARY_BYTES,
};
use sngram::query::analyze::classes::{class_set, ClassFold};
use sngram::query::analyze::looks::{first_boundary, last_boundary, look_possible};
use sngram::query::analyze::repeat::bounded_power_union;
use sngram::query::analyze::{Analyzer, BOUNDARY_KEEP, MAX_SET};
use sngram::query::combine::{seam_side, shrink_seam, MAX_SEAM_CROSS};
use sngram::query::flush::{reduce_set, spill_exact, truncate_to};
use sngram::query::gram::Gram;
use sngram::query::hir::{Assertion, CharClass, Regex};
use sngram::query::info::RegexpInfo;
use sngram::query::order::Order;
use sngram::query::strings::StringSet;
use sngram::table::WeightTable;

/// A boundary set accepts `byte` iff it is a one-byte member, or it is the
/// `{""}` (unknown) sentinel that accepts anything.
fn accepts(set: &StringSet, byte: u8) -> bool {
    set.as_slice()
        .iter()
        .any(|g| g.as_bytes().is_empty() || g.as_bytes() == [byte])
}

/// The scalar ranges of `\p{name}`.
fn script_ranges(name: &str) -> Vec<(u32, u32)> {
    let hir = regex_syntax::parse(&format!("\\p{{{name}}}")).unwrap();
    let HirKind::Class(Class::Unicode(cu)) = hir.kind() else {
        panic!("expected a unicode class");
    };
    cu.ranges()
        .iter()
        .map(|r| (r.start() as u32, r.end() as u32))
        .collect()
}

/// Assert `cp`'s actual UTF-8 first and last bytes lie in the boundary sets.
fn check_scalar(cp: u32, first: &StringSet, last: &StringSet) {
    let Some(ch) = char::from_u32(cp) else {
        return; // surrogate gap: not a scalar
    };
    let mut buf = [0u8; 4];
    let bytes = ch.encode_utf8(&mut buf).as_bytes();
    let (head, tail) = (bytes[0], bytes[bytes.len() - 1]);
    assert!(
        accepts(first, head),
        "first byte {head:#x} of U+{cp:04X} missing"
    );
    assert!(
        accepts(last, tail),
        "last byte {tail:#x} of U+{cp:04X} missing"
    );
}

/// Brute-force check: every scalar in `ranges` has its actual UTF-8 first
/// and last bytes inside the derived boundary sets. This is the
/// exhaustiveness invariant the plan's soundness rests on.
fn assert_exhaustive(ranges: &[(u32, u32)]) {
    let (first, last) = utf8_boundary_bytes(&ranges.to_vec());
    for &(lo, hi) in ranges {
        for cp in lo..=hi {
            check_scalar(cp, &first, &last);
        }
    }
}

fn exhaustive_over_scripts() {
    for name in ["Greek", "Cyrillic", "Hebrew", "Han", "Latin"] {
        assert_exhaustive(&script_ranges(name));
    }
}

#[test]
fn analyze_utf8_boundary_is_exhaustive_over_scripts() {
    exhaustive_over_scripts();
}

#[test]
fn boundary_utf8_boundary_is_exhaustive_over_scripts() {
    exhaustive_over_scripts();
}

fn exhaustive_across_edges() {
    // ranges straddling every UTF-8 length edge, plus the full space
    assert_exhaustive(&[(0x0000, 0x0010_FFFF)]);
    assert_exhaustive(&[(0x0070, 0x0090)]); // 1->2 byte edge
    assert_exhaustive(&[(0x07F0, 0x0810)]); // 2->3 byte edge
    assert_exhaustive(&[(0xFFF0, 0x0001_0010)]); // 3->4 byte edge
    assert_exhaustive(&[(0x0C3E, 0x0C42), (0x0400, 0x04FF)]); // wrap + block
}

#[test]
fn analyze_utf8_boundary_is_exhaustive_across_length_and_wrap_edges() {
    exhaustive_across_edges();
}

#[test]
fn boundary_utf8_boundary_is_exhaustive_across_length_and_wrap_edges() {
    exhaustive_across_edges();
}

fn overlarge_set_collapses() {
    let mut bytes = ByteSet::new();
    let last = u8::try_from(MAX_BOUNDARY_BYTES).expect("boundary cap fits in u8");
    bytes.mark_range(0, last);
    let set = bytes.into_boundary();
    assert_eq!(set, StringSet::of(Gram::empty()));
}

#[test]
fn analyze_overlarge_boundary_byte_set_collapses_to_unknown_member() {
    overlarge_set_collapses();
}

#[test]
fn boundary_overlarge_boundary_byte_set_collapses_to_unknown_member() {
    overlarge_set_collapses();
}

fn marks_first_and_last() {
    let mut bytes = ByteSet::new();
    bytes.mark(0);
    bytes.mark(u8::MAX);
    let set = bytes.into_boundary();

    assert_eq!(set.len(), 2);
    assert!(accepts(&set, 0));
    assert!(accepts(&set, u8::MAX));
    assert!(!accepts(&set, 1));
}

#[test]
fn analyze_byte_set_marks_first_and_last_byte_values() {
    marks_first_and_last();
}

#[test]
fn boundary_byte_set_marks_first_and_last_byte_values() {
    marks_first_and_last();
}

fn greek_keeps_a_suffix() {
    // wide and non-ASCII: both boundary sets stay real byte constraints
    let greek = CharClass::Unicode(script_ranges("Greek"));
    let ClassFold::Wide { first, last } = class_set(&greek) else {
        panic!("Greek should be a wide class");
    };
    assert!(!first.as_slice().iter().any(|g| g.as_bytes().is_empty()));
    assert!(!last.as_slice().iter().any(|g| g.as_bytes().is_empty()));
    assert!(accepts(&last, 0xB1)); // last byte of U+03B1 (alpha)
}

#[test]
fn analyze_greek_keeps_a_real_continuation_byte_suffix() {
    greek_keeps_a_suffix();
}

#[test]
fn classes_greek_keeps_a_real_continuation_byte_suffix() {
    greek_keeps_a_suffix();
}

fn complete_scalars_only() {
    let word_left = last_boundary("α".as_bytes());
    let word_right = first_boundary("β".as_bytes());
    let space_right = first_boundary(b" ");
    let incomplete_right = first_boundary(&[0xCE]);

    assert!(!look_possible(
        Assertion::WordUnicode,
        word_left,
        word_right
    ));
    assert!(look_possible(
        Assertion::WordUnicode,
        word_left,
        space_right
    ));
    assert!(
        look_possible(Assertion::WordUnicode, word_left, incomplete_right),
        "truncated UTF-8 must stay possible instead of proving no match"
    );
}

#[test]
fn analyze_unicode_word_boundary_uses_complete_scalars_only() {
    complete_scalars_only();
}

#[test]
fn looks_unicode_word_boundary_uses_complete_scalars_only() {
    complete_scalars_only();
}

fn set(items: &[&[u8]], order: Order) -> StringSet {
    let mut out = StringSet::new();
    for item in items {
        out.push(Gram::from(item));
    }
    out.clean(order);
    out
}

fn expands_closed_exact_language() {
    let base = set(&[b"ab", b"cd"], Order::Prefix);
    let actual = bounded_power_union(&base, 1, 2).expect("small exact language");
    let expected = set(
        &[b"ab", b"cd", b"abab", b"abcd", b"cdab", b"cdcd"],
        Order::Prefix,
    );
    assert_eq!(actual, expected);
}

#[test]
fn analyze_bounded_power_union_expands_closed_exact_language() {
    expands_closed_exact_language();
}

#[test]
fn repeat_bounded_power_union_expands_closed_exact_language() {
    expands_closed_exact_language();
}

fn rejects_explosive_exact_language() {
    let mut base = StringSet::new();
    for byte in b'a'..=b'q' {
        base.push(Gram::from(&[byte][..]));
    }
    base.clean(Order::Prefix);
    assert!(bounded_power_union(&base, 0, 4).is_none());
}

#[test]
fn analyze_bounded_power_union_rejects_explosive_exact_language() {
    rejects_explosive_exact_language();
}

#[test]
fn repeat_bounded_power_union_rejects_explosive_exact_language() {
    rejects_explosive_exact_language();
}

fn numbered_set(prefix: u8, count: usize) -> StringSet {
    let mut out = StringSet::new();
    for number in 0..count {
        out.push(Gram::from(
            format!("{}{:02}", prefix as char, number).as_bytes(),
        ));
    }
    out.clean(Order::Prefix);
    out
}

#[test]
fn seam_side_shrinks_oversized_sets_instead_of_dropping() {
    let mut wide = StringSet::new();
    for a in b'a'..=b'z' {
        for b in b'a'..=b'z' {
            wide.push(Gram::from(&[a, b, b'q'][..]));
        }
    }
    wide.clean(Order::Suffix);
    assert!(wide.len() > MAX_SET);

    let side = seam_side(&wide, Order::Suffix).expect("side should shrink");
    assert!(side.len() <= MAX_SET);
    assert!(side.min_len() >= 1);
}

#[test]
fn combine_shrink_seam_bounds_large_cross_product_without_emptying_context() {
    let left = numbered_set(b'l', 64);
    let right = numbered_set(b'r', 64);
    let (left, right) = shrink_seam(left, right).expect("seam should fit");

    assert!(left.len().saturating_mul(right.len()) <= MAX_SEAM_CROSS);
    assert!(left.min_len() > 0);
    assert!(right.min_len() > 0);
}

fn contains_member(set: &StringSet, bytes: &[u8]) -> bool {
    set.as_slice()
        .iter()
        .any(|member| member.as_bytes() == bytes)
}

#[test]
fn spill_exact_keeps_prefix_and_suffix_slices_in_bounds() {
    let exact = set(&[b"", b"a", b"abcdef", b"0123456789abcdef"], Order::Prefix);
    let mut info = RegexpInfo::blank();

    spill_exact(&mut info, &exact);
    info.prefix.clean(Order::Prefix);
    info.suffix.clean(Order::Suffix);

    assert!(info
        .prefix
        .as_slice()
        .iter()
        .all(|member| member.len() <= BOUNDARY_KEEP));
    assert!(info
        .suffix
        .as_slice()
        .iter()
        .all(|member| member.len() <= BOUNDARY_KEEP));
    assert!(contains_member(&info.prefix, b""));
    assert!(contains_member(&info.suffix, b""));
    assert!(contains_member(&info.prefix, b"a"));
    assert!(contains_member(&info.suffix, b"a"));
    assert!(contains_member(&info.prefix, b"01234567"));
    assert!(contains_member(&info.suffix, b"89abcdef"));
}

#[test]
fn truncate_to_respects_prefix_and_suffix_bounds() {
    let mut prefixes = set(&[b"a", b"abcd", b"abcdef"], Order::Prefix);
    truncate_to(&mut prefixes, Order::Prefix, 3);
    prefixes.clean(Order::Prefix);

    assert!(prefixes.as_slice().iter().all(|member| member.len() <= 3));
    assert!(contains_member(&prefixes, b"a"));
    assert!(contains_member(&prefixes, b"abc"));

    let mut suffixes = set(&[b"a", b"abcd", b"zcd", b"abcdef"], Order::Suffix);
    truncate_to(&mut suffixes, Order::Suffix, 3);
    suffixes.clean(Order::Suffix);

    assert!(suffixes.as_slice().iter().all(|member| member.len() <= 3));
    assert!(contains_member(&suffixes, b"a"));
    assert!(contains_member(&suffixes, b"bcd"));
    assert!(contains_member(&suffixes, b"zcd"));
    assert!(contains_member(&suffixes, b"def"));
}

fn reduce_set_keeps_members_known() {
    let mut wide = StringSet::new();
    for byte in 0u8..=199 {
        wide.push(Gram::from(&[byte][..]));
    }
    wide.clean(Order::Prefix);

    reduce_set(&mut wide, Order::Prefix);

    assert!(wide
        .as_slice()
        .iter()
        .all(|member| !member.as_bytes().is_empty()));
}

#[test]
fn combine_reduce_set_never_introduces_empty_unknown_member() {
    reduce_set_keeps_members_known();
}

#[test]
fn flush_reduce_set_never_introduces_empty_unknown_member() {
    reduce_set_keeps_members_known();
}

#[test]
fn a_short_literal_plans_to_itself() {
    let table = WeightTable::from_weight_fn(|c1, c2| crc32fast::hash(&[c1, c2]));
    let mut analyzer = Analyzer::new(&table);
    assert!(analyzer.within_budget());
    let plan = analyzer.plan(&Regex::Literal(b"abc".to_vec()));
    assert_eq!(plan.grams, StringSet::of(Gram::from(b"abc")));
    assert!(plan.sub.is_empty());
}

#[test]
fn byte_classes_stop_at_the_last_byte() {
    let bytes = |ranges: Vec<(u32, u32)>| {
        let (first, last) = byte_boundary_bytes(&ranges);
        assert_eq!(first.as_slice(), last.as_slice());
        let mut out = Vec::new();
        for g in first.as_slice() {
            out.extend_from_slice(g.as_bytes());
        }
        out
    };
    assert_eq!(bytes(vec![(0x61, 0x63)]), b"abc".to_vec());
    assert_eq!(bytes(vec![(0xfe, 0x1000)]), vec![0xfe, 0xff]);
    assert_eq!(bytes(vec![(0x61, 0x61), (0x3b1, 0x3c9)]), vec![0x61, 0xff]);
}
