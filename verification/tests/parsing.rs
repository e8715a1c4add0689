//! Patterns read into trees.

use sngram::pattern::Pattern;
use sngram::query::hir::{Assertion, CharClass, Regex, Repetition};
use sngram::query::parser::QueryParser;
use sngram::query::settings::{QuerySettings, ScanSettings};
use sngram::query::validate::PatternValidator;

/// The tree of a pattern, as text because the parser only lends it.
fn tree(pattern: &str) -> String {
    let valid = PatternValidator::validate(pattern).expect("short pattern");
    let Ok(parsed) = QueryParser::parse(valid) else {
        panic!("{pattern:?} parses");
    };
    shown(parsed.hir())
}

fn shown(regex: &Regex) -> String {
    format!("{regex:?}")
}

fn literal(text: &str) -> Regex {
    Regex::Literal(text.as_bytes().to_vec())
}

#[test]
fn every_assertion_keeps_its_kind() {
    let cases = [
        (r"\A", Assertion::Start),
        (r"\z", Assertion::End),
        ("^", Assertion::StartLF),
        ("$", Assertion::EndLF),
        ("(?R:^)", Assertion::StartCRLF),
        ("(?R:$)", Assertion::EndCRLF),
        (r"(?-u:\b)", Assertion::WordAscii),
        (r"(?-u:\B)", Assertion::WordAsciiNegate),
        (r"\b", Assertion::WordUnicode),
        (r"\B", Assertion::WordUnicodeNegate),
        (r"(?-u:\b{start})", Assertion::WordStartAscii),
        (r"(?-u:\b{end})", Assertion::WordEndAscii),
        (r"\b{start}", Assertion::WordStartUnicode),
        (r"\b{end}", Assertion::WordEndUnicode),
        (r"(?-u:\b{start-half})", Assertion::WordStartHalfAscii),
        (r"(?-u:\b{end-half})", Assertion::WordEndHalfAscii),
        (r"\b{start-half}", Assertion::WordStartHalfUnicode),
        (r"\b{end-half}", Assertion::WordEndHalfUnicode),
    ];
    for (pattern, look) in cases {
        assert_eq!(tree(pattern), shown(&Regex::Look(look)), "{pattern}");
    }
}

#[test]
fn every_node_keeps_its_parts() {
    assert_eq!(tree(""), shown(&Regex::Empty));
    assert_eq!(tree("ab"), shown(&literal("ab")));
    assert_eq!(
        tree("[a-cx]"),
        shown(&Regex::Class(CharClass::Unicode(vec![(97, 99), (120, 120)])))
    );
    assert_eq!(
        tree("(?-u:[a-c\\xFF])"),
        shown(&Regex::Class(CharClass::Bytes(vec![(97, 99), (255, 255)])))
    );
    assert_eq!(
        tree("(?:ab){2,5}"),
        shown(&Regex::Repetition(Repetition {
            min: 2,
            max: Some(5),
            sub: Box::new(literal("ab")),
        }))
    );
    assert_eq!(
        tree("(a)+"),
        shown(&Regex::Repetition(Repetition {
            min: 1,
            max: None,
            sub: Box::new(Regex::Capture(Box::new(literal("a")))),
        }))
    );
    assert_eq!(
        tree("^ab"),
        shown(&Regex::Concat(vec![
            Regex::Look(Assertion::StartLF),
            literal("ab")
        ]))
    );
    assert_eq!(
        tree("ab|cde"),
        shown(&Regex::Alternation(vec![literal("ab"), literal("cde")]))
    );
    assert_eq!(
        tree(r"[^\s\S]"),
        shown(&Regex::Class(CharClass::Bytes(vec![])))
    );
}

#[test]
fn patterns_keep_their_tree_under_default_settings() {
    let pattern = Pattern::new("^a").expect("valid regex");
    assert_eq!(
        *pattern.hir(),
        Regex::Concat(vec![Regex::Look(Assertion::Start), literal("a")])
    );
    assert!(Pattern::new(r"(?-u:\xFF)").is_err());
}

#[test]
fn planner_and_scanner_settings_agree() {
    assert_eq!(QuerySettings::MIN_GRAM_LEN, ScanSettings::MIN_GRAM_LEN);
    assert_eq!(
        QuerySettings::LINE_SENTINELS,
        ScanSettings::DOCUMENT_SENTINELS
    );
    assert_eq!(
        QuerySettings::CASE_FOLDED_SUPPLEMENTS,
        ScanSettings::CASE_FOLDED_SUPPLEMENTS
    );
}
