//! The boolean shape a regex folds to, and the options it is planned under.

use sngram::plan::{query, GramSpace, QueryCase, QueryOptions, QueryPlan, QuerySyntax};
use sngram::query::gram::Gram;
use sngram::table::WeightTable;

/// A deterministic weight table: each byte pair hashed to a varied weight,
/// so the sparse hull is non-trivial.
fn table() -> WeightTable {
    WeightTable::from_weight_fn(|c1, c2| crc32fast::hash(&[c1, c2]))
}

fn plan_of(re: &str) -> QueryPlan {
    query(&table(), &[re], QueryOptions::default())
        .expect("pattern parses")
        .plan
}

fn with(opts: QueryOptions, patterns: &[&str]) -> QueryPlan {
    query(&table(), patterns, opts).expect("patterns plan").plan
}

fn sentinels(opts: QueryOptions) -> QueryOptions {
    QueryOptions {
        line_sentinels: true,
        ..opts
    }
}

fn folded(opts: QueryOptions) -> QueryOptions {
    QueryOptions {
        folded_space: true,
        ..opts
    }
}

/// Render the operator tree, collapsing a conjunctive gram bag to `G` and a
/// disjunctive bag to `O`.
fn shape(plan: &QueryPlan) -> String {
    match plan {
        QueryPlan::All => "+".to_string(),
        QueryPlan::Nothing => "-".to_string(),
        QueryPlan::And { grams, sub } => shape_join(grams, sub, "G", " & "),
        QueryPlan::Or { grams, sub } => shape_join(grams, sub, "O", " | "),
    }
}

fn shape_join(grams: &[Gram], sub: &[QueryPlan], bag: &str, sep: &str) -> String {
    let mut parts = Vec::new();
    if !grams.is_empty() {
        parts.push(bag.to_string());
    }
    parts.extend(sub.iter().map(shape));
    if parts.len() == 1 {
        return parts.pop().expect("len 1");
    }
    format!("({})", parts.join(sep))
}

fn has_or(plan: &QueryPlan) -> bool {
    match plan {
        QueryPlan::Or { .. } => true,
        QueryPlan::And { sub, .. } => sub.iter().any(has_or),
        _ => false,
    }
}

fn assert_shape(re: &str, expected: &str) {
    assert_eq!(shape(&plan_of(re)), expected, "shape mismatch for {re:?}");
}

fn grams_of(plan: &QueryPlan, out: &mut Vec<Vec<u8>>) {
    let (QueryPlan::And { grams, sub } | QueryPlan::Or { grams, sub }) = plan else {
        return;
    };
    out.extend(grams.iter().map(|g| g.as_bytes().to_vec()));
    for p in sub {
        grams_of(p, out);
    }
}

fn all_grams(plan: &QueryPlan) -> Vec<Vec<u8>> {
    let mut out = Vec::new();
    grams_of(plan, &mut out);
    out
}

#[test]
fn anchors_and_word_boundaries_are_invisible() {
    assert_eq!(plan_of("^abc"), plan_of("abc"));
    assert_eq!(plan_of("abc$"), plan_of("abc"));
    assert_eq!(plan_of(r"\babc"), plan_of("abc"));
    // A satisfiable interior boundary adds nothing to the plan; an
    // unsatisfiable one (like `ab\bc`) proves the pattern matches
    // nothing and plans to None instead.
    assert_eq!(plan_of(r"ab\b-cd"), plan_of("ab-cd"));
    assert_eq!(plan_of(r"ab\bc"), QueryPlan::Nothing);
}

#[test]
fn capture_group_is_transparent() {
    assert_eq!(plan_of("(abcdef)"), plan_of("abcdef"));
}

#[test]
fn alternation_of_literals_is_an_or() {
    assert!(matches!(plan_of("(a+hello|b+world)"), QueryPlan::Or { .. }));
}

#[test]
fn case_insensitive_expands_to_an_or_over_variants() {
    assert!(matches!(plan_of("(?i)abc"), QueryPlan::Or { .. }));
}

#[test]
fn impossible_pattern_is_none() {
    assert_eq!(plan_of(r"[^\s\S]"), QueryPlan::Nothing);
}

#[test]
fn too_broad_patterns_are_all() {
    assert_eq!(plan_of("."), QueryPlan::All);
    assert_eq!(plan_of("()"), QueryPlan::All);
    assert_eq!(plan_of("ab[^cde]f"), QueryPlan::All);
}

#[test]
fn counted_repetition_keeps_the_literal() {
    assert!(!matches!(plan_of("a{3,5}bcdef"), QueryPlan::All));
}

#[test]
fn small_unicode_class_stays_a_constraint() {
    assert!(!matches!(plan_of("foo[α-γ]bar"), QueryPlan::All));
}

#[test]
fn small_class_between_literals_matches_explicit_alternation() {
    assert_eq!(plan_of("ab[cd]ef"), plan_of("abcef|abdef"));
    assert_eq!(
        plan_of("sched[_-]clock"),
        plan_of("sched_clock|sched-clock")
    );
}

#[test]
fn exact_base_repetition_above_cap_expands_to_literal() {
    assert_eq!(plan_of("x{5}"), plan_of("xxxxx"));
    assert_eq!(plan_of("ab{5}cd"), plan_of("abbbbbcd"));
    assert_eq!(plan_of("(abc){5}"), plan_of("abcabcabcabcabc"));
    assert_eq!(plan_of("a{8}"), plan_of("aaaaaaaa"));
}

#[test]
fn bounded_range_above_cap_matches_enumeration() {
    assert_eq!(plan_of("h{3,5}i"), plan_of("hhhi|hhhhi|hhhhhi"));
    assert_eq!(plan_of("[ch]{5}"), plan_of("(?:c|h){5}"));
}

#[test]
fn exact_literal_cover_keeps_dense_subwindows() {
    let rendered = plan_of("sched_clock").render();
    for gram in [
        "sch", "che", "hed", "ed_", "d_c", "_cl", "clo", "loc", "ock",
    ] {
        assert!(
            rendered.contains(gram),
            "expected {rendered:?} to contain dense literal gram {gram:?}"
        );
    }
}

#[test]
fn nested_alternations_both_survive() {
    let plan = plan_of("(z*abcz*defz*)(z*(ghi|jkl)z*)");
    assert!(has_or(&plan), "alternation lost in {}", shape(&plan));
    assert!(
        shape(&plan).contains('&'),
        "concat lost in {}",
        shape(&plan)
    );
}

#[test]
fn display_matches_codesearch_string_forms() {
    assert_eq!(plan_of(".").render(), "+");
    assert_eq!(plan_of(r"[^\s\S]").render(), "-");
    assert!(plan_of("(a+hello|b+world)").render().contains('|'));
}

#[test]
fn smart_case_folds_when_uppercase_only_in_escapes() {
    let smart = with(
        QueryOptions {
            case: QueryCase::Smart,
            ..QueryOptions::default()
        },
        &[r"maxfile\Wsize"],
    );
    let insensitive = with(
        QueryOptions {
            case: QueryCase::Insensitive,
            ..QueryOptions::default()
        },
        &[r"maxfile\Wsize"],
    );
    assert_eq!(smart, insensitive);
}

#[test]
fn smart_case_stays_sensitive_on_uppercase_literals() {
    let smart = with(
        QueryOptions {
            case: QueryCase::Smart,
            ..QueryOptions::default()
        },
        &["MaxFile"],
    );
    let sensitive = with(QueryOptions::default(), &["MaxFile"]);
    assert_eq!(smart, sensitive);
}

#[test]
fn fixed_strings_escape_metacharacters() {
    let fixed = with(
        QueryOptions {
            syntax: QuerySyntax::FixedStrings,
            ..QueryOptions::default()
        },
        &["max.*size"],
    );
    assert_eq!(fixed, plan_of(r"max\.\*size"));
}

#[test]
fn invert_plans_everything() {
    let inverted = with(
        QueryOptions {
            invert: true,
            ..QueryOptions::default()
        },
        &["max_file_size"],
    );
    assert_eq!(inverted, QueryPlan::All);
}

#[test]
fn multiple_patterns_join_as_alternation() {
    let joined = with(QueryOptions::default(), &["max_file", "min_file"]);
    assert_eq!(joined, plan_of("(?:max_file)|(?:min_file)"));
}

#[test]
fn insensitive_flag_equals_inline_wrapping() {
    for pat in ["max_file_size", "sched[_-]clock", "mem+set"] {
        let flagged = with(
            QueryOptions {
                case: QueryCase::Insensitive,
                ..QueryOptions::default()
            },
            &[pat],
        );
        assert_eq!(flagged, plan_of(&format!("(?i:{pat})")), "{pat}");
    }
}

#[test]
fn crlf_keeps_carriage_return_anchors_satisfiable() {
    let default = with(QueryOptions::default(), &[r"foo$\r\nbar"]);
    assert_eq!(default, QueryPlan::Nothing);
    let crlf = with(
        QueryOptions {
            crlf: true,
            ..QueryOptions::default()
        },
        &[r"foo$\r\nbar"],
    );
    assert!(!matches!(crlf, QueryPlan::Nothing));
}

#[test]
fn non_unicode_byte_patterns_parse() {
    let opts = QueryOptions {
        unicode: false,
        ..QueryOptions::default()
    };
    let plan = query(&table(), &[r"foobar\xFF"], opts)
        .expect("bytes plan")
        .plan;
    assert!(!matches!(plan, QueryPlan::All));
}

#[test]
fn start_anchor_demands_terminator_grams() {
    let plan = with(sentinels(QueryOptions::default()), &["^#define CONFIG"]);
    assert!(
        all_grams(&plan).iter().any(|g| g.first() == Some(&b'\n')),
        "expected a leading terminator-bridging gram in {plan:?}"
    );
}

#[test]
fn end_anchor_demands_terminator_grams() {
    let plan = with(sentinels(QueryOptions::default()), &["EXPORT_SYMBOL$"]);
    assert!(
        all_grams(&plan).iter().any(|g| g.last() == Some(&b'\n')),
        "expected a trailing terminator-bridging gram in {plan:?}"
    );
}

#[test]
fn anchors_without_sentinels_stay_invisible() {
    let anchored = with(QueryOptions::default(), &["^abcdef"]);
    let plain = with(QueryOptions::default(), &["abcdef"]);
    assert_eq!(anchored, plain);
}

#[test]
fn crlf_end_anchor_covers_both_terminators() {
    let opts = QueryOptions {
        crlf: true,
        ..QueryOptions::default()
    };
    let plan = with(sentinels(opts), &["EXPORT_SYMBOL$"]);
    let grams = all_grams(&plan);
    assert!(grams.iter().any(|g| g.last() == Some(&b'\n')));
    assert!(grams.iter().any(|g| g.last() == Some(&b'\r')));
}

#[test]
fn interior_anchor_pruning_survives_sentinels() {
    let plan = with(sentinels(QueryOptions::default()), &["foo$bar"]);
    assert_eq!(
        plan,
        QueryPlan::Nothing,
        "impossible interior anchor must stay None"
    );
}

#[test]
fn ascii_insensitive_folds_to_the_lowercase_plan() {
    let opts = QueryOptions {
        case: QueryCase::Insensitive,
        unicode: false,
        ..QueryOptions::default()
    };
    let folded_plan = query(&table(), &["SchedClock"], folded(opts)).expect("plan");
    assert_eq!(folded_plan.space, GramSpace::Folded);
    let lower = query(
        &table(),
        &["schedclock"],
        QueryOptions {
            unicode: false,
            ..QueryOptions::default()
        },
    )
    .expect("plan");
    assert_eq!(
        folded_plan.plan, lower.plan,
        "folded plan must equal the folded literal's"
    );
}

#[test]
fn unicode_insensitive_collapses_the_ascii_explosion() {
    let opts = QueryOptions {
        case: QueryCase::Insensitive,
        ..QueryOptions::default()
    };
    let folded_plan = query(&table(), &["SchedClock"], folded(opts)).expect("plan");
    assert_eq!(folded_plan.space, GramSpace::Folded);
    let exploded = query(&table(), &["SchedClock"], opts).expect("plan");
    let folded_count = all_grams(&folded_plan.plan).len();
    let exploded_count = all_grams(&exploded.plan).len();
    assert!(
        folded_count < exploded_count,
        "folded plan ({folded_count} grams) must be smaller than the variant explosion ({exploded_count})"
    );
}

#[test]
fn inline_insensitive_uses_folded_space() {
    let opts = QueryOptions::default();
    let pattern = "(?i)netif_receive_skb_list_internal";
    let folded_plan = query(&table(), &[pattern], folded(opts)).expect("plan");
    assert_eq!(folded_plan.space, GramSpace::Folded);
    let exploded = query(&table(), &[pattern], opts).expect("exploded plan");
    let folded_count = all_grams(&folded_plan.plan).len();
    let exploded_count = all_grams(&exploded.plan).len();
    assert!(
        folded_count.saturating_mul(4) < exploded_count,
        "folded inline plan ({folded_count} grams) should avoid primary-space explosion ({exploded_count})"
    );
}

#[test]
fn folded_plans_never_carry_uppercase() {
    let opts = QueryOptions {
        case: QueryCase::Insensitive,
        ..QueryOptions::default()
    };
    let planned = query(&table(), &["READ[A-Z]lock_IRQ"], folded(opts)).expect("plan");
    assert_eq!(planned.space, GramSpace::Folded);
    for g in all_grams(&planned.plan) {
        assert!(
            !g.iter().any(u8::is_ascii_uppercase),
            "uppercase byte in folded-space gram {g:?}"
        );
    }
}

#[test]
fn sensitive_queries_ignore_the_folded_space() {
    let planned = query(&table(), &["SchedClock"], folded(QueryOptions::default())).expect("plan");
    assert_eq!(planned.space, GramSpace::Primary);
}

#[test]
fn shapes_match_codesearch_regexp_test() {
    // A conjunctive gram bag is `G`; a disjunctive bag is `O`. Cases and
    // expected operator shapes are codesearch's, except where sparse-native
    // branch flushing intentionally keeps more constraints.
    assert_shape("Abcdef", "G");
    assert_shape("(abc)(def)", "G");
    assert_shape("abc.*(def|ghi)", "(G & O & O)");
    assert_shape("a+hello", "G");
    assert_shape("(a+hello|b+world)", "(G | G)");
    assert_shape("a*bbb", "G");
    assert_shape("a?bbb", "G");
    assert_shape("(bbb)a?", "G");
    assert_shape("(bbb)a*", "G");
    assert_shape("^abc", "G");
    assert_shape("abc$", "G");
    assert_shape(r"[^\s\S]", "-");
    assert_shape("ab[^cde]f", "+");
    assert_shape("ab.f", "+");
    assert_shape(".", "+");
    assert_shape("()", "+");
    assert_shape("(abc|abc)", "G");
    assert_shape("(ab|ab)c", "G");
    assert_shape("ab[cd]e", "(G | G)");
    assert_shape("[ab][cd][ef]", "O");
    assert_shape("(?i)abc", "O");
    assert_shape("(?i)ab~", "O");
    assert_shape(r"\babc", "G");
}

#[test]
fn plans_render_grams_in_quotes_and_nested_ones_in_brackets() {
    let gram = |b: &[u8]| Gram::from(b);
    let plan = QueryPlan::And {
        grams: vec![gram(b"abc"), gram(b"~ \"\\")],
        sub: vec![
            QueryPlan::Or {
                grams: vec![gram(b"x\ny"), gram(b"\xff\x00!")],
                sub: vec![
                    QueryPlan::And {
                        grams: vec![gram(b"def"), gram(b"ghi")],
                        sub: Vec::new(),
                    },
                    QueryPlan::Nothing,
                ],
            },
            QueryPlan::All,
        ],
    };
    assert_eq!(
        plan.render(),
        r#""abc" "~ \"\\" "x\x0ay"|"\xff\x00!"|("def" "ghi")|(-) +"#
    );
}

#[test]
fn repeated_anchors_keep_their_terminators_at_the_pattern_edge() {
    let plan = |re: &str| with(sentinels(QueryOptions::default()), &[re]);
    for re in ["(^foobar)+", "(?:^foobar)+", "(foobar$)+"] {
        let grams = all_grams(&plan(re));
        assert!(
            grams.iter().any(|g| g.contains(&b'\n')),
            "{re:?} must ask for a terminator: {}",
            plan(re).render()
        );
    }
    let plain = all_grams(&plan_of("(^foobar)+"));
    assert!(plain.iter().all(|g| !g.contains(&b'\n')));
}

#[test]
fn text_anchors_behind_a_byte_still_prune_under_sentinels() {
    let opts = sentinels(QueryOptions::default());
    assert_eq!(with(opts, &[r"\n\Afoobar"]), QueryPlan::Nothing);
    assert_eq!(with(opts, &[r"foobar\z\n"]), QueryPlan::Nothing);
    assert_ne!(with(opts, &[r"\Afoobar\z"]), QueryPlan::Nothing);
}

#[test]
fn nested_anchors_become_the_breaks_they_look_at() {
    let plan = |re: &str| with(sentinels(QueryOptions::default()), &[re]);
    assert_eq!(plan("x?(^foo)bar"), plan_of("x?\nfoobar"));
    assert_eq!(plan("x(^foobar)?baz"), plan_of("x(\nfoobar)?baz"));
    assert_eq!(plan(r"\b(^foobar)"), plan_of("\nfoobar"));
    assert_eq!(plan("(foobar$)y?"), plan_of("foobar\ny?"));
    assert_eq!(plan(r"(foobar$)\b"), plan_of("foobar\n"));
    assert_eq!(plan("(?:^foobar|x?)zed"), plan_of("(?:\nfoobar|x?)zed"));
    assert_eq!(plan("a\n?(^foobar)"), plan_of("a\n?\nfoobar"));
    assert_eq!(plan(r"a\s*(^foobar)"), plan_of(r"a\s*\nfoobar"));
    assert_eq!(plan("(?s)a.*(^foobar)"), plan_of("(?s)a.*\nfoobar"));
    assert_eq!(plan(r"(foobar$)\s*z"), plan_of(r"foobar\n\s*z"));
    assert_eq!(plan("(?:ab\n)?(^foobar)"), plan_of("(?:ab\n)?\nfoobar"));
    assert_eq!(plan("(foobar$)(?:\nab)*"), plan_of("foobar\n(?:\nab)*"));
}

#[test]
fn a_break_that_the_pattern_takes_is_not_asked_for_twice() {
    let plan = |re: &str| with(sentinels(QueryOptions::default()), &[re]);
    assert_eq!(plan("a\n(^foobar)"), plan_of("a\nfoobar"));
    assert_eq!(plan("z(?:ab\n)?(^foobar)"), plan_of("z(?:ab\n)?foobar"));
    assert_eq!(plan(r"z\s+(^foobar)"), plan_of(r"z\s+foobar"));
    assert_eq!(plan("(foobar$)\nb"), plan_of("foobar\nb"));
    for g in all_grams(&plan("(^x?)(^foobar)")) {
        assert!(!g.windows(2).any(|w| w == b"\n\n"));
    }
}

#[test]
fn assertions_before_a_trailing_anchor_are_asked_of_its_terminator() {
    let plan = |re: &str| with(sentinels(QueryOptions::default()), &[re]);
    assert_eq!(plan(r"foo-\b$"), plan_of("foo-\n"));
    assert_eq!(plan("foobar^$"), plan_of("foobar\n"));
    assert_eq!(plan(r"foobar\A$"), QueryPlan::Nothing);
    assert_eq!(plan(r"y(x*\A$)"), QueryPlan::Nothing);
    assert_eq!(plan(r"x(^\Afoobar)"), QueryPlan::Nothing);
}
