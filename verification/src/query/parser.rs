//! Regex parsing for query planning.

use vstd::prelude::*;

use regex_syntax::hir::{HirKind, Look as Anchor};

use crate::query::hir::{Assertion, CharClass, Regex, Repetition, Syntax};
use crate::query::pattern::{inline_insensitive, PatternFacts};
use crate::query::plan::QueryError;
use crate::query::settings::QuerySettings;
use crate::query::validate::ValidatedPattern;

verus! {

/// The settings of the regex parser.
#[derive(Debug, Clone, Copy, PartialEq, Eq, Structural)]
pub struct ParseFlags {
    /// How deep expressions may nest.
    pub nest_limit: u32,
    /// Octal escapes are read.
    pub octal: bool,
    /// An expression that can match invalid UTF-8 is refused.
    pub utf8: bool,
    /// `^` and `$` match at line breaks.
    pub multi_line: bool,
    /// Letters match in either case.
    pub case_insensitive: bool,
    /// `.` matches a line break.
    pub dot_matches_new_line: bool,
    /// A line break is `\r`, `\n` or `\r\n`.
    pub crlf: bool,
    /// Classes and `.` stand for Unicode scalars.
    pub unicode: bool,
}

/// `regex_syntax::hir::Hir`.
#[verifier::external_type_specification]
#[verifier::external_body]
pub struct ExHir(regex_syntax::hir::Hir);

/// `regex_syntax::hir::Class`.
#[verifier::external_type_specification]
#[verifier::external_body]
pub struct ExClass(regex_syntax::hir::Class);

/// `regex_syntax::hir::Look`.
#[verifier::external_type_specification]
#[verifier::external_body]
pub struct ExLook(regex_syntax::hir::Look);

/// A `regex_syntax::hir::Look` taken over variant by variant. Nothing is
/// stated of it on its own: it is part of what [`parse_regex`] hands back.
#[verifier::external_body]
fn look_of(look: &regex_syntax::hir::Look) -> (own: Assertion) {
    match look {
        Anchor::Start => Assertion::Start, Anchor::End => Assertion::End,
        Anchor::StartLF => Assertion::StartLF, Anchor::EndLF => Assertion::EndLF,
        Anchor::StartCRLF => Assertion::StartCRLF, Anchor::EndCRLF => Assertion::EndCRLF,
        Anchor::WordAscii => Assertion::WordAscii, Anchor::WordAsciiNegate => Assertion::WordAsciiNegate,
        Anchor::WordUnicode => Assertion::WordUnicode, Anchor::WordUnicodeNegate => Assertion::WordUnicodeNegate,
        Anchor::WordStartAscii => Assertion::WordStartAscii, Anchor::WordEndAscii => Assertion::WordEndAscii,
        Anchor::WordStartUnicode => Assertion::WordStartUnicode, Anchor::WordEndUnicode => Assertion::WordEndUnicode,
        Anchor::WordStartHalfAscii => Assertion::WordStartHalfAscii, Anchor::WordEndHalfAscii => Assertion::WordEndHalfAscii,
        Anchor::WordStartHalfUnicode => Assertion::WordStartHalfUnicode, Anchor::WordEndHalfUnicode => Assertion::WordEndHalfUnicode,
    }
}

/// A `regex_syntax::hir::Class` taken over range by range. The crate keeps the
/// start of a range at or below its end.
#[verifier::external_body]
fn class_of(class: &regex_syntax::hir::Class) -> (own: CharClass)
    ensures
        own.wf(),
{
    match class {
        regex_syntax::hir::Class::Unicode(x) => {
            CharClass::Unicode(x.iter().map(|r| (r.start() as u32, r.end() as u32)).collect())
        },
        regex_syntax::hir::Class::Bytes(x) => {
            CharClass::Bytes(x.iter().map(|r| (r.start(), r.end())).collect())
        },
    }
}

/// A `regex_syntax::hir::Hir` taken over node by node; capture names and
/// greediness are left out. Its classes keep the start of each range at or
/// below its end.
#[verifier::external_body]
fn hir_of(hir: &regex_syntax::hir::Hir) -> (own: Regex)
    ensures
        own.wf(),
{
    match hir.kind() {
        HirKind::Empty => Regex::Empty,
        HirKind::Literal(x) => Regex::Literal(x.0.to_vec()),
        HirKind::Class(x) => Regex::Class(class_of(x)),
        HirKind::Look(x) => Regex::Look(look_of(x)),
        HirKind::Repetition(x) => {
            Regex::Repetition(Repetition { min: x.min, max: x.max, sub: Box::new(hir_of(&x.sub)) })
        },
        HirKind::Capture(x) => Regex::Capture(Box::new(hir_of(&x.sub))),
        HirKind::Concat(x) => Regex::Concat(x.iter().map(hir_of).collect()),
        HirKind::Alternation(x) => Regex::Alternation(x.iter().map(hir_of).collect()),
    }
}

/// What `regex-syntax` reads from a pattern under the settings: the tree of
/// the expression, or the text of its error.
pub uninterp spec fn pattern_syntax(pattern: Seq<char>, flags: ParseFlags) -> Result<
    Syntax,
    Seq<char>,
>;

/// `regex_syntax::Parser::parse` on the pattern, with a parser that
/// `regex_syntax::ParserBuilder` built from the settings; the settings that
/// are not named keep their defaults. The tree is taken over node by node, an
/// error as its text. The result depends on the pattern's characters and on
/// the settings alone; the grammar is the crate's and is not stated. The
/// classes of a tree keep the start of each range at or below its end.
///
/// The tree is taken over recursively, so the nest limit stays at the
/// crate's default or below.
#[verifier::external_body]
pub(crate) fn parse_regex(pattern: &str, flags: ParseFlags) -> (out: Result<Regex, String>)
    requires
        flags.nest_limit <= 250,
    ensures
        (match out {
            Ok(hir) => Ok(hir.syntax()),
            Err(text) => Err(text@),
        }) == pattern_syntax(pattern@, flags),
        out matches Ok(hir) ==> hir.wf(),
{
    regex_syntax::ParserBuilder::new()
        .nest_limit(flags.nest_limit)
        .octal(flags.octal)
        .utf8(flags.utf8)
        .multi_line(flags.multi_line)
        .case_insensitive(flags.case_insensitive)
        .dot_matches_new_line(flags.dot_matches_new_line)
        .crlf(flags.crlf)
        .unicode(flags.unicode)
        .build()
        .parse(pattern)
        .map(|hir| hir_of(&hir))
        .map_err(|err| err.to_string())
}

/// The settings that patterns are parsed under.
pub open spec fn query_flags() -> ParseFlags {
    ParseFlags {
        nest_limit: QuerySettings::VERIFIER_NEST_LIMIT,
        octal: QuerySettings::OCTAL,
        utf8: QuerySettings::UTF8,
        multi_line: QuerySettings::MULTI_LINE,
        case_insensitive: QuerySettings::CASE_INSENSITIVE,
        dot_matches_new_line: QuerySettings::DOT_MATCHES_NEW_LINE,
        crlf: QuerySettings::CRLF,
        unicode: QuerySettings::UNICODE,
    }
}

/// Parsed query input plus lightweight facts that the tree does not keep.
pub struct ParsedPattern {
    hir: Regex,
    facts: PatternFacts,
}

impl ParsedPattern {
    /// The tree for planning.
    pub closed spec fn tree(self) -> Regex {
        self.hir
    }

    /// Inline flags switch case-insensitivity on.
    pub closed spec fn folds(self) -> bool {
        self.facts.folds()
    }

    /// The tree for planning.
    #[must_use]
    pub fn hir(&self) -> (hir: &Regex)
        ensures
            *hir == self.tree(),
    {
        &self.hir
    }

    /// Whether planning should use the folded gram space.
    #[must_use]
    pub fn uses_folded_space(&self) -> (folded: bool)
        ensures
            folded == self.folds(),
    {
        self.facts.uses_folded_space()
    }
}

/// Parses a validated pattern into the tree for planning.
pub struct QueryParser;

impl QueryParser {
    /// Parse one regex pattern with the planner's internal defaults.
    pub fn parse(pattern: ValidatedPattern<'_>) -> (out: Result<ParsedPattern, QueryError>)
        ensures
            match out {
                Ok(parsed) => {
                    &&& parsed.tree().wf()
                    &&& pattern_syntax(pattern.text(), query_flags()) == Ok::<Syntax, Seq<char>>(
                        parsed.tree().syntax(),
                    )
                    &&& parsed.folds() == inline_insensitive(pattern.text())
                },
                Err(QueryError::InvalidRegex(text)) => pattern_syntax(
                    pattern.text(),
                    query_flags(),
                ) == Err::<Syntax, Seq<char>>(text@),
                Err(_) => false,
            },
    {
        let text = pattern.as_str();
        let facts = PatternFacts::analyze(text);
        let flags = ParseFlags {
            nest_limit: QuerySettings::VERIFIER_NEST_LIMIT,
            octal: QuerySettings::OCTAL,
            utf8: QuerySettings::UTF8,
            multi_line: QuerySettings::MULTI_LINE,
            case_insensitive: QuerySettings::CASE_INSENSITIVE,
            dot_matches_new_line: QuerySettings::DOT_MATCHES_NEW_LINE,
            crlf: QuerySettings::CRLF,
            unicode: QuerySettings::UNICODE,
        };
        match parse_regex(text, flags) {
            Ok(hir) => Ok(ParsedPattern { hir, facts }),
            Err(err) => Err(QueryError::InvalidRegex(err)),
        }
    }
}

} // verus!
