//! Regex pattern parsing into a reusable tree.

use vstd::prelude::*;
use vstd::utf8::encode_utf8;

use crate::error::{QueryError, MAX_PATTERN_LEN};
use crate::query::hir::{Regex, Syntax};
use crate::query::parser::{parse_regex, pattern_syntax, ParseFlags};

verus! {

/// How deep the expressions of a pattern may nest.
pub const NEST_LIMIT: u32 = 100;

/// The parser settings of a pattern: the defaults, but for the nest limit.
pub open spec fn default_flags() -> ParseFlags {
    ParseFlags {
        nest_limit: NEST_LIMIT,
        octal: false,
        utf8: true,
        multi_line: false,
        case_insensitive: false,
        dot_matches_new_line: false,
        crlf: false,
        unicode: true,
    }
}

/// Validated regex pattern with pre-parsed tree.
#[derive(Debug)]
pub struct Pattern {
    source: String,
    hir: Regex,
}

impl Pattern {
    /// The regex text.
    pub closed spec fn text(self) -> Seq<char> {
        self.source@
    }

    /// The parsed tree.
    pub closed spec fn tree(self) -> Regex {
        self.hir
    }

    /// Parse a regex; it is refused when it is too long, and otherwise when
    /// its syntax is invalid.
    pub fn new(regex: &str) -> (out: Result<Pattern, QueryError>)
        ensures
            match out {
                Ok(pattern) => {
                    &&& encode_utf8(regex@).len() <= MAX_PATTERN_LEN
                    &&& pattern.text() == regex@
                    &&& pattern.tree().wf()
                    &&& pattern_syntax(regex@, default_flags()) == Ok::<Syntax, Seq<char>>(
                        pattern.tree().syntax(),
                    )
                },
                Err(QueryError::InvalidRegex(text)) => {
                    &&& encode_utf8(regex@).len() <= MAX_PATTERN_LEN
                    &&& pattern_syntax(regex@, default_flags()) == Err::<Syntax, Seq<char>>(text@)
                },
                Err(err) => {
                    &&& encode_utf8(regex@).len() > MAX_PATTERN_LEN
                    &&& err == (QueryError::PatternTooLong {
                        len: encode_utf8(regex@).len() as usize,
                        max: MAX_PATTERN_LEN,
                    })
                },
            },
    {
        match check_length(regex) {
            Ok(_) => {},
            Err(err) => {
                return Err(err);
            },
        }
        match parse(regex) {
            Ok(hir) => Ok(Pattern { source: regex.to_owned(), hir }),
            Err(err) => Err(err),
        }
    }

    /// The regex as it was given.
    #[must_use]
    pub fn as_str(&self) -> (source: &str)
        ensures
            source@ == self.text(),
    {
        self.source.as_str()
    }

    /// The parsed tree, the input to query analysis.
    pub fn hir(&self) -> (hir: &Regex)
        ensures
            *hir == self.tree(),
    {
        &self.hir
    }
}

/// Refuse a regex longer than [`MAX_PATTERN_LEN`] bytes.
pub fn check_length(regex: &str) -> (out: Result<(), QueryError>)
    ensures
        match out {
            Ok(_) => encode_utf8(regex@).len() <= MAX_PATTERN_LEN,
            Err(err) => {
                &&& encode_utf8(regex@).len() > MAX_PATTERN_LEN
                &&& err == (QueryError::PatternTooLong {
                    len: encode_utf8(regex@).len() as usize,
                    max: MAX_PATTERN_LEN,
                })
            },
        },
{
    let len: usize = regex.as_bytes().len();
    if len > MAX_PATTERN_LEN {
        return Err(QueryError::PatternTooLong { len, max: MAX_PATTERN_LEN });
    }
    Ok(())
}

fn parse(regex: &str) -> (out: Result<Regex, QueryError>)
    ensures
        match out {
            Ok(hir) => hir.wf() && pattern_syntax(regex@, default_flags()) == Ok::<
                Syntax,
                Seq<char>,
            >(hir.syntax()),
            Err(QueryError::InvalidRegex(text)) => pattern_syntax(regex@, default_flags()) == Err::<
                Syntax,
                Seq<char>,
            >(text@),
            Err(_) => false,
        },
{
    let flags = ParseFlags {
        nest_limit: NEST_LIMIT,
        octal: false,
        utf8: true,
        multi_line: false,
        case_insensitive: false,
        dot_matches_new_line: false,
        crlf: false,
        unicode: true,
    };
    match parse_regex(regex, flags) {
        Ok(hir) => Ok(hir),
        Err(text) => Err(QueryError::InvalidRegex(text)),
    }
}

} // verus!
