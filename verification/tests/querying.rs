//! Regexes folded into plans, and the conditions beside them.

use std::collections::HashMap;

use sngram::bytes::{ByteSet256, EdgeBytes, SaturatingByteCounts256};
use sngram::error::{QueryError, MAX_PATTERN_LEN};
use sngram::hashing::{hash_bytes, hash_bytes_keyed, HashKey};
use sngram::pattern::Pattern;
use sngram::plan::options::{has_inline_case_insensitive, smart_case_insensitive};
use sngram::query::pattern::PatternFacts;
use sngram::query::plan::tune::{DfSnapshot, DfStats};
use sngram::query::plan::{
    GramKey, GramNeedle, PlanExpr, QueryPlan, ScanFlags, ScanNeed, ScanSummary,
};
use sngram::query::query;
use sngram::query::validate::PatternValidator;
use sngram::table::WeightTable;

fn table() -> WeightTable {
    WeightTable::from_weight_fn(|c1, c2| crc32fast::hash(&[c1, c2]))
}

fn root_needs(re: &str) -> Vec<ScanNeed> {
    let plan = query(&table(), re).expect("pattern plans");
    match plan.root() {
        PlanExpr::AllOf { needs, .. } => needs.clone(),
        _ => Vec::new(),
    }
}

fn set_has(set: &ByteSet256, byte: u8) -> bool {
    set.words()[usize::from(byte) / 64] >> (usize::from(byte) % 64) & 1 == 1
}

fn any_byte_sets(needs: &[ScanNeed]) -> Vec<ByteSet256> {
    needs
        .iter()
        .filter_map(|need| match need {
            ScanNeed::ContainsAnyByte(set) => Some(*set),
            _ => None,
        })
        .collect()
}

fn line_start_set(needs: &[ScanNeed]) -> Option<ByteSet256> {
    needs.iter().find_map(|need| match need {
        ScanNeed::LineStartsWithAnyByte(set) => Some(*set),
        _ => None,
    })
}

fn line_end_set(needs: &[ScanNeed]) -> Option<ByteSet256> {
    needs.iter().find_map(|need| match need {
        ScanNeed::LineEndsWithAnyByte(set) => Some(*set),
        _ => None,
    })
}

fn longest_line_need(needs: &[ScanNeed]) -> Option<u32> {
    needs.iter().find_map(|need| match need {
        ScanNeed::MinLongestLineLen(n) => Some(*n),
        _ => None,
    })
}

#[test]
fn required_unicode_class_emits_contains_any_byte() {
    let needs = root_needs(r"read\p{Greek}lock");
    let sets = any_byte_sets(&needs);
    assert!(
        sets.iter()
            .any(|set| set_has(set, 0xCE) && !set_has(set, b'a')),
        "expected a Greek lead-byte set in {needs:?}"
    );
}

#[test]
fn required_ascii_class_emits_contains_any_byte() {
    let needs = root_needs("[0-9]xyzvault");
    let sets = any_byte_sets(&needs);
    assert!(sets
        .iter()
        .any(|set| set_has(set, b'0') && set_has(set, b'9') && !set_has(set, b'x')));
}

#[test]
fn alternation_unions_required_class_sets() {
    let needs = root_needs("(?:[α-ω]|[0-9])suffix");
    let sets = any_byte_sets(&needs);
    assert!(sets
        .iter()
        .any(|set| set_has(set, 0xCE) && set_has(set, b'5')));
}

#[test]
fn optional_class_emits_no_contains_any_byte() {
    let needs = root_needs("[α-ω]*abcdef");
    assert!(any_byte_sets(&needs).is_empty());
}

#[test]
fn near_full_class_sets_are_skipped() {
    let needs = root_needs("(?s:.)abcdef");
    assert!(any_byte_sets(&needs).is_empty());
}

#[test]
fn single_line_literal_demands_longest_line() {
    assert_eq!(longest_line_need(&root_needs("hello world")), Some(11));
}

#[test]
fn single_line_gap_pattern_demands_longest_line() {
    assert_eq!(longest_line_need(&root_needs("static.*return")), Some(12));
}

#[test]
fn newline_capable_dot_emits_no_longest_line() {
    assert!(longest_line_need(&root_needs("(?s)static.*return")).is_none());
}

#[test]
fn newline_literal_emits_no_longest_line() {
    assert!(longest_line_need(&root_needs("foo\nbar")).is_none());
}

#[test]
fn newline_class_emits_no_longest_line() {
    assert!(longest_line_need(&root_needs("foo[\n;]bar")).is_none());
}

#[test]
fn unanchored_literal_emits_no_edge_needs() {
    let needs = root_needs("kfree");
    assert!(!needs.iter().any(|need| matches!(
        need,
        ScanNeed::StartsWith(_)
            | ScanNeed::EndsWith(_)
            | ScanNeed::LineStartsWithAnyByte(_)
            | ScanNeed::LineEndsWithAnyByte(_)
    )));
}

#[test]
fn line_start_anchor_emits_first_byte_set() {
    let set = line_start_set(&root_needs("^kfree")).expect("line-start need");
    assert!(set_has(&set, b'k'));
    assert!(!set_has(&set, b'f'));
}

#[test]
fn anchored_alternation_unions_first_bytes() {
    let set = line_start_set(&root_needs("^int|^long")).expect("line-start need");
    assert!(set_has(&set, b'i') && set_has(&set, b'l'));
}

#[test]
fn partially_anchored_alternation_emits_nothing() {
    assert!(line_start_set(&root_needs("kfree|^int")).is_none());
}

#[test]
fn anchored_leading_class_contributes_all_first_bytes() {
    let set = line_start_set(&root_needs("^[ \t]+return")).expect("line-start need");
    assert!(set_has(&set, b' ') && set_has(&set, b'\t'));
}

#[test]
fn newline_capable_first_byte_emits_nothing() {
    assert!(line_start_set(&root_needs("^\nfoo")).is_none());
}

#[test]
fn line_end_anchor_emits_last_byte_set() {
    let set = line_end_set(&root_needs("foo_bar$")).expect("line-end need");
    assert!(set_has(&set, b'r'));
    assert!(!set_has(&set, b'o'));
}

#[test]
fn optional_tail_widens_line_end_set() {
    let set = line_end_set(&root_needs("foo;?$")).expect("line-end need");
    assert!(set_has(&set, b';') && set_has(&set, b'o'));
}

#[test]
fn doc_start_anchor_emits_starts_with() {
    let needs = root_needs(r"\A#include");
    assert!(needs.iter().any(|need| matches!(
        need,
        ScanNeed::StartsWith(edge) if edge.as_slice() == b"#include"
    )));
}

#[test]
fn doc_end_anchor_emits_ends_with() {
    let needs = root_needs(r"return 0;\z");
    assert!(needs.iter().any(|need| matches!(
        need,
        ScanNeed::EndsWith(edge) if edge.as_slice() == b"return 0;"
    )));
}

/// The line-edge sides demanded across every needle of a plan's root.
fn line_edges(re: &str) -> Vec<(bool, bool)> {
    let plan = query(&table(), re).expect("pattern plans");
    let PlanExpr::AllOf { grams, .. } = plan.root() else {
        return Vec::new();
    };
    grams
        .iter()
        .filter_map(|needle| match needle {
            GramNeedle::AtLineEdge { starts, ends, .. } => Some((*starts, *ends)),
            _ => None,
        })
        .collect()
}

#[test]
fn fully_anchored_literal_pins_both_of_its_edges() {
    let edges = line_edges("^kfree_skb;$");
    assert!(edges.iter().any(|&(starts, _)| starts), "{edges:?}");
    assert!(edges.iter().any(|&(_, ends)| ends), "{edges:?}");
}

#[test]
fn a_gram_spanning_the_whole_literal_pins_both_sides_at_once() {
    let edges = line_edges("^done$");
    assert!(edges.contains(&(true, true)), "{edges:?}");
}

#[test]
fn one_sided_anchors_pin_only_their_own_side() {
    assert!(line_edges("^kfree_skb").iter().all(|&(_, ends)| !ends));
    assert!(line_edges("kfree_skb$").iter().all(|&(starts, _)| !starts));
}

#[test]
fn text_anchors_pin_line_edges_too() {
    assert!(!line_edges(r"\Akfree_skb\z").is_empty());
}

#[test]
fn crlf_anchors_stay_unpinned() {
    assert!(
        line_edges("(?R:^kfree_skb$)").is_empty(),
        "a CRLF `$` also matches before a `\\r`, which the stored bits do not record"
    );
}

#[test]
fn unanchored_and_nonliteral_shapes_stay_unpinned() {
    assert!(line_edges("kfree_skb").is_empty());
    assert!(line_edges(r"^[ \t]*kfree_skb").is_empty());
    assert!(line_edges("(?i:^kfree_skb$)").is_empty());
}

fn one_byte(byte: u8) -> ByteSet256 {
    let mut set = ByteSet256::default();
    set.insert(byte);
    set
}

fn edge(bytes: &[u8]) -> EdgeBytes {
    EdgeBytes::from_slice(bytes)
}

#[test]
fn scan_need_matches_summary_bytes() {
    let mut counts = SaturatingByteCounts256::default();
    counts.observe(b'a');
    counts.observe(b'b');
    let summary = ScanSummary {
        byte_len: 2,
        line_count: 1,
        longest_line_len: 2,
        flags: ScanFlags::default().with_ascii_lower(),
        byte_counts: counts,
        line_start_bytes: one_byte(b'a'),
        line_end_bytes: one_byte(b'b'),
        prefix: edge(b"ab"),
        suffix: edge(b"ab"),
    };

    assert!(ScanNeed::ContainsAnyByte(one_byte(b'a')).satisfied_by(&summary));
    assert!(ScanNeed::StartsWith(edge(b"a")).satisfied_by(&summary));
    assert!(ScanNeed::EndsWith(edge(b"b")).satisfied_by(&summary));
    assert!(!ScanNeed::ContainsAnyByte(one_byte(b'c')).satisfied_by(&summary));
    assert!(ScanNeed::MinByteLen(2).satisfied_by(&summary));
    assert!(!ScanNeed::MinByteLen(3).satisfied_by(&summary));
    assert!(!ScanNeed::MinLongestLineLen(3).satisfied_by(&summary));
    assert!(ScanNeed::MinByteCounts(Box::new(counts)).satisfied_by(&summary));
    assert!(!ScanNeed::MinByteCounts(Box::new(counts)).satisfied_by(&ScanSummary::default()));
    assert!(ScanNeed::LineStartsWithAnyByte(one_byte(b'a')).satisfied_by(&summary));
    assert!(!ScanNeed::LineEndsWithAnyByte(one_byte(b'a')).satisfied_by(&summary));
}

struct MapDf {
    counts: HashMap<GramKey, u64>,
    total: u64,
}

impl DfStats for MapDf {
    fn entry_count(&self, key: GramKey) -> u64 {
        self.counts.get(&key).copied().unwrap_or(0)
    }

    fn total_entries(&self) -> u64 {
        self.total
    }
}

fn df_of(pairs: &[(GramKey, u64)], total: u64) -> MapDf {
    MapDf {
        counts: pairs.iter().copied().collect(),
        total,
    }
}

fn key(value: u64) -> GramKey {
    GramKey::new(value)
}

fn estimate_expr_candidates(expr: &PlanExpr, df: &DfSnapshot) -> u64 {
    match expr {
        PlanExpr::All => df.total,
        PlanExpr::Nothing => 0,
        PlanExpr::AllOf {
            grams, children, ..
        } => {
            let grams = grams.iter().map(|gram| gram.estimate_candidates(df)).min();
            let children = children
                .iter()
                .map(|child| estimate_expr_candidates(child, df))
                .min();
            grams
                .into_iter()
                .chain(children)
                .min()
                .unwrap_or(df.total)
        }
        PlanExpr::AnyOf {
            grams, children, ..
        } => {
            let grams = grams
                .iter()
                .map(|gram| gram.estimate_candidates(df))
                .fold(0u64, u64::saturating_add);
            let children = children
                .iter()
                .map(|child| estimate_expr_candidates(child, df))
                .fold(0u64, u64::saturating_add);
            grams.saturating_add(children).min(df.total)
        }
    }
}

#[test]
fn gram_estimates_bound_and_by_rarest_or_by_sum() {
    let df = DfSnapshot {
        counts: vec![(key(1), 900), (key(2), 3)],
        total: 1000,
    };
    let and = PlanExpr::AllOf {
        grams: vec![GramNeedle::Key(key(1)), GramNeedle::Key(key(2))],
        needs: vec![],
        children: vec![],
    };
    let or = PlanExpr::AnyOf {
        grams: vec![GramNeedle::Key(key(1)), GramNeedle::Key(key(2))],
        needs: vec![],
        children: vec![],
    };

    assert_eq!(estimate_expr_candidates(&and, &df), 3);
    assert_eq!(estimate_expr_candidates(&or, &df), 903);
    assert_eq!(estimate_expr_candidates(&PlanExpr::All, &df), 1000);
    assert_eq!(estimate_expr_candidates(&PlanExpr::Nothing, &df), 0);
}

fn all_of_keys(values: &[u64]) -> QueryPlan {
    QueryPlan::new(PlanExpr::AllOf {
        grams: values.iter().map(|&v| GramNeedle::Key(key(v))).collect(),
        needs: vec![],
        children: vec![],
    })
}

#[test]
fn tuning_caps_all_of_grams_to_rarest_few() {
    let df = df_of(
        &[
            (key(1), 10),
            (key(2), 20),
            (key(3), 30),
            (key(4), 40),
            (key(5), 50),
        ],
        1000,
    );
    let mut plan = all_of_keys(&[5, 4, 3, 2, 1]);

    plan.tune(&df, 45);

    let PlanExpr::AllOf { grams, .. } = plan.root() else {
        panic!("tuned plan must stay AllOf");
    };
    assert_eq!(
        grams,
        &[
            GramNeedle::Key(key(1)),
            GramNeedle::Key(key(2)),
            GramNeedle::Key(key(3)),
            GramNeedle::Key(key(4)),
        ]
    );
}

fn weak_bag() -> PlanExpr {
    PlanExpr::AnyOf {
        grams: vec![GramNeedle::Key(key(2)), GramNeedle::Key(key(3))],
        needs: vec![],
        children: vec![],
    }
}

fn all_of_children(grams: Vec<GramNeedle>, children: Vec<PlanExpr>) -> QueryPlan {
    QueryPlan::new(PlanExpr::AllOf {
        grams,
        needs: vec![],
        children,
    })
}

#[test]
fn tuning_drops_unselective_bags_beside_stronger_constraints() {
    let df = df_of(&[(key(1), 5), (key(2), 600), (key(3), 700)], 1000);
    let mut plan = all_of_children(vec![GramNeedle::Key(key(1))], vec![weak_bag()]);

    plan.tune(&df, 300);

    let PlanExpr::AllOf { children, .. } = plan.root() else {
        panic!("tuned plan must stay AllOf");
    };
    assert!(children.is_empty(), "weak bag should drop: {plan:?}");
}

#[test]
fn tuning_keeps_a_weak_bag_that_is_the_last_constraint() {
    let df = df_of(&[(key(2), 600), (key(3), 700)], 1000);
    let mut lone = all_of_children(vec![], vec![weak_bag()]);

    lone.tune(&df, 300);

    let PlanExpr::AllOf { children, .. } = lone.root() else {
        panic!("tuned plan must stay AllOf");
    };
    assert_eq!(children.len(), 1, "last constraint must survive: {lone:?}");
}

#[test]
fn lowercase_literals_are_insensitive() {
    assert!(smart_case_insensitive("foo"));
    assert!(smart_case_insensitive("foo.*bar"));
}

#[test]
fn uppercase_literals_are_sensitive() {
    assert!(!smart_case_insensitive("Foo"));
    assert!(!smart_case_insensitive("foo[A-Z]"));
    assert!(!smart_case_insensitive(r"foo\x41"));
}

#[test]
fn uppercase_in_escapes_does_not_count() {
    assert!(smart_case_insensitive(r"foo\Wbar"));
    assert!(smart_case_insensitive(r"foo\Sbar"));
    assert!(smart_case_insensitive(r"\Afoo"));
    assert!(smart_case_insensitive(r"foo\pL"));
    assert!(smart_case_insensitive(r"(?P<Name>foo)"));
    assert!(smart_case_insensitive(r"foo\x6a"));
}

#[test]
fn literal_free_patterns_stay_sensitive() {
    assert!(!smart_case_insensitive(r"\d{4}"));
    assert!(!smart_case_insensitive(r"\W+"));
}

#[test]
fn unparseable_patterns_stay_sensitive() {
    assert!(!smart_case_insensitive("foo("));
}

#[test]
fn smart_case_looks_into_classes() {
    assert!(!smart_case_insensitive("foo[a&&[bÉ]]"));
    assert!(!smart_case_insensitive("foo[a-cX]"));
    assert!(smart_case_insensitive("[[:upper:]a]"));
    assert!(!smart_case_insensitive("[[:upper:]]"));
    assert!(!smart_case_insensitive("(a|(?:bC)+)"));
}

#[test]
fn options_detects_inline_case_insensitive_flags() {
    assert!(has_inline_case_insensitive("(?i)foo"));
    assert!(has_inline_case_insensitive("foo(?i:bar)baz"));
    assert!(has_inline_case_insensitive("(?:foo|(?i:bar))"));
    assert!(!has_inline_case_insensitive("foo"));
    assert!(!has_inline_case_insensitive("(?-i:foo)"));
    assert!(!has_inline_case_insensitive("foo("));
}

#[test]
fn pattern_detects_inline_case_insensitive_flags() {
    assert!(PatternFacts::analyze("(?i)foo").uses_folded_space());
    assert!(PatternFacts::analyze("foo(?i:bar)baz").uses_folded_space());
    assert!(PatternFacts::analyze("(?:foo|(?i:bar))").uses_folded_space());
    assert!(!PatternFacts::analyze("foo").uses_folded_space());
    assert!(!PatternFacts::analyze("(?-i:foo)").uses_folded_space());
    assert!(!PatternFacts::analyze("foo(").uses_folded_space());
}

#[test]
fn preserves_source_after_successful_parse() {
    let pattern = Pattern::new(r"sched[_-]clock").expect("valid regex");
    assert_eq!(pattern.as_str(), r"sched[_-]clock");
}

#[test]
fn accepts_the_documented_maximum_length() {
    let source = "a".repeat(MAX_PATTERN_LEN);
    let pattern = Pattern::new(&source).expect("pattern at limit");
    assert_eq!(pattern.as_str().len(), MAX_PATTERN_LEN);
}

#[test]
fn rejects_patterns_beyond_the_documented_limit_before_parsing() {
    let source = "(".repeat(MAX_PATTERN_LEN + 1);
    let err = Pattern::new(&source).expect_err("oversized pattern");
    assert!(matches!(
        err,
        QueryError::PatternTooLong {
            len,
            max: MAX_PATTERN_LEN
        } if len == MAX_PATTERN_LEN + 1
    ));
}

#[test]
fn invalid_regex_reports_parse_error() {
    let err = Pattern::new("[").expect_err("invalid regex");
    assert!(matches!(err, QueryError::InvalidRegex(_)));
}

#[test]
fn query_reports_each_refusal() {
    assert!(matches!(
        query(&table(), "foo("),
        Err(QueryError::InvalidRegex(text)) if text.contains("unclosed group")
    ));
    let long = "a".repeat(4097);
    assert!(matches!(
        query(&table(), &long),
        Err(QueryError::PatternTooLong { len: 4097, max: 4096 })
    ));
    assert!(PatternValidator::validate(&long).is_err());
    assert_eq!(
        PatternValidator::validate("a{2}").unwrap().as_str(),
        "a{2}"
    );
}

fn keys_in(expr: &PlanExpr, out: &mut Vec<GramNeedle>) {
    if let PlanExpr::AllOf {
        grams, children, ..
    }
    | PlanExpr::AnyOf {
        grams, children, ..
    } = expr
    {
        out.extend(grams.iter().cloned());
        for child in children {
            keys_in(child, out);
        }
    }
}

#[test]
fn needles_carry_raw_and_folded_keys() {
    let plan = query(&table(), "abc").unwrap();
    let mut needles = Vec::new();
    keys_in(plan.root(), &mut needles);
    assert_eq!(needles, vec![GramNeedle::Key(GramKey(hash_bytes(b"abc")))]);
    assert_eq!(plan.gram_count(), 1);

    let folded = query(&table(), "(?i:abc)").unwrap();
    let mut needles = Vec::new();
    keys_in(folded.root(), &mut needles);
    let twin = hash_bytes_keyed(b"abc", HashKey::unkeyed().folded());
    assert_eq!(
        needles,
        vec![GramNeedle::AnyKey(vec![
            GramKey(hash_bytes(b"abc")),
            GramKey(twin)
        ])]
    );
    assert_eq!(needles[0].keys().len(), 2);
}

#[test]
fn word_bounded_literals_pin_word_edges() {
    let plan = query(&table(), r"\babc\b").unwrap();
    let mut needles = Vec::new();
    keys_in(plan.root(), &mut needles);
    assert_eq!(
        needles,
        vec![GramNeedle::AtWordEdge {
            keys: vec![GramKey(hash_bytes(b"abc"))],
            starts: true,
            ends: true,
            whole: true
        }]
    );
}

#[test]
fn impossible_and_empty_patterns_plan_to_the_constants() {
    assert!(query(&table(), r"[^\s\S]").unwrap().is_none());
    assert!(query(&table(), "").unwrap().is_all());
    assert!(!query(&table(), "abc").unwrap().is_all());
}

#[test]
fn tuning_caps_conjunctions_and_keeps_what_must_stay() {
    let grams: Vec<GramNeedle> = (0..50).map(|v| GramNeedle::Key(key(v))).collect();
    let any = PlanExpr::AnyOf {
        grams: (100..140).map(|v| GramNeedle::Key(key(v))).collect(),
        needs: vec![ScanNeed::MinByteLen(3)],
        children: vec![PlanExpr::AllOf {
            grams: (200..240).map(|v| GramNeedle::Key(key(v))).collect(),
            needs: vec![ScanNeed::MinByteLen(4)],
            children: Vec::new(),
        }],
    };
    let mut plan = QueryPlan::new(PlanExpr::AllOf {
        grams,
        needs: vec![ScanNeed::MinByteLen(9)],
        children: vec![any],
    });
    plan.tune(&df_of(&[], 1000), 10);
    let PlanExpr::AllOf {
        grams,
        needs,
        children,
    } = plan.root()
    else {
        panic!("a conjunction stays one");
    };
    assert_eq!(grams.len(), 32);
    assert_eq!(*needs, vec![ScanNeed::MinByteLen(9)]);
    let PlanExpr::AnyOf {
        grams,
        needs,
        children,
    } = &children[0]
    else {
        panic!("an alternative stays one");
    };
    assert_eq!(grams.len(), 40);
    assert_eq!(*needs, vec![ScanNeed::MinByteLen(3)]);
    let PlanExpr::AllOf { grams, needs, .. } = &children[0] else {
        panic!("a conjunction stays one");
    };
    assert_eq!(grams.len(), 32);
    assert_eq!(*needs, vec![ScanNeed::MinByteLen(4)]);
}

#[test]
fn tuning_asks_the_statistics_and_keeps_the_last_gram() {
    let pairs: Vec<(GramKey, u64)> = (0..4).map(|v| (key(v), 900 - 100 * v)).collect();
    let mut plan = QueryPlan::new(PlanExpr::AllOf {
        grams: (0..4).map(|v| GramNeedle::Key(key(v))).collect(),
        needs: Vec::new(),
        children: Vec::new(),
    });
    plan.tune(&df_of(&pairs, 1000), 10);
    assert_eq!(
        *plan.root(),
        PlanExpr::AllOf {
            grams: vec![GramNeedle::Key(key(3))],
            needs: Vec::new(),
            children: Vec::new(),
        }
    );
}
