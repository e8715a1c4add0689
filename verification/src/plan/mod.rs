//! Regexes under the verifier's match options, folded into a plan over grams.
//!
//! A regex is folded bottom-up into a [`QueryPlan`]: a conservative boolean
//! query over gram presence that every matching document must satisfy. The
//! plan over-approximates (false positives are fine; a real match is never
//! dropped), so it prefilters candidates before the exact regex runs.

pub mod alternatives;
pub mod display;
pub mod literals;
pub mod options;

use vstd::prelude::*;
use vstd::string::*;
use vstd::utf8::encode_utf8;

use crate::error::{QueryError, MAX_PATTERN_LEN};
use crate::pattern::check_length;
use crate::plan::options::{has_inline_case_insensitive, smart_case, smart_case_insensitive};
use crate::query::algebra::{holds, Op, Query, Tree};
use crate::query::analyze::fold::planned;
use crate::query::analyze::{Analyzer, PlanContext};
use crate::query::gram::{texts, Gram};
use crate::query::hir::{law_matches_by_syntax, matched, Regex, Syntax};
use crate::query::parser::{parse_regex, pattern_syntax, ParseFlags};
use crate::query::pattern::inline_insensitive;
use crate::query::soundness::analyzed::law_plan_never_misses;
use crate::query::soundness::junctions::framed;
use crate::query::soundness::present;
use crate::table::WeightTable;

verus! {

/// Nest limit matching `grep-regex`'s translator, so any pattern the
/// verifier accepts also parses here.
pub const VERIFIER_NEST_LIMIT: u32 = 250;

/// How the verifier treats the case of letters.
#[derive(Debug, Clone, Copy, PartialEq, Eq, Structural)]
pub enum QueryCase {
    /// As they are written.
    Sensitive,
    /// In either case.
    Insensitive,
    /// In either case unless the pattern has an upper-case literal.
    Smart,
}

/// How the verifier reads a pattern.
#[derive(Debug, Clone, Copy, PartialEq, Eq, Structural)]
pub enum QuerySyntax {
    /// As a regex.
    Regex,
    /// As a string to be found literally.
    FixedStrings,
}

/// The match options of the verifier and the format of the index.
#[derive(Debug, Clone, Copy, PartialEq, Eq, Structural)]
pub struct QueryOptions {
    /// How letters match.
    pub case: QueryCase,
    /// How patterns are read.
    pub syntax: QuerySyntax,
    /// `.` matches a line break.
    pub dotall: bool,
    /// A line break is `\r`, `\n` or `\r\n`.
    pub crlf: bool,
    /// Classes and `.` stand for Unicode scalars.
    pub unicode: bool,
    /// Lines without a match are wanted.
    pub invert: bool,
    /// The index brackets documents with virtual `\n` sentinels.
    pub line_sentinels: bool,
    /// The index holds the folded gram space.
    pub folded_space: bool,
}

impl Default for QueryOptions {
    fn default() -> (opts: QueryOptions)
        ensures
            opts == (QueryOptions {
                case: QueryCase::Sensitive,
                syntax: QuerySyntax::Regex,
                dotall: false,
                crlf: false,
                unicode: true,
                invert: false,
                line_sentinels: false,
                folded_space: false,
            }),
    {
        QueryOptions {
            case: QueryCase::Sensitive,
            syntax: QuerySyntax::Regex,
            dotall: false,
            crlf: false,
            unicode: true,
            invert: false,
            line_sentinels: false,
            folded_space: false,
        }
    }
}

/// The gram space a plan is to be run in.
#[derive(Debug, Clone, Copy, PartialEq, Eq, Structural)]
pub enum GramSpace {
    /// The grams of the text.
    Primary,
    /// The grams of the folded text.
    Folded,
}

/// A conservative boolean query over gram presence.
#[derive(Debug, PartialEq, Eq)]
pub enum QueryPlan {
    /// Every document may match.
    All,
    /// No document can match.
    Nothing,
    /// Every gram and every sub-plan must hold.
    And {
        /// The grams that must all be present.
        grams: Vec<Gram>,
        /// The sub-plans that must all hold.
        sub: Vec<QueryPlan>,
    },
    /// At least one gram or sub-plan must hold.
    Or {
        /// The grams of which one must be present.
        grams: Vec<Gram>,
        /// The sub-plans of which one must hold.
        sub: Vec<QueryPlan>,
    },
}

impl QueryPlan {
    /// The tree this plan stands for.
    pub open spec fn tree(self) -> Tree
        decreases self,
    {
        match self {
            QueryPlan::All => Tree { op: Op::All, grams: Seq::empty(), sub: Seq::empty() },
            QueryPlan::Nothing => Tree { op: Op::Nothing, grams: Seq::empty(), sub: Seq::empty() },
            QueryPlan::And { grams, sub } => Tree {
                op: Op::And,
                grams: texts(grams@),
                sub: Seq::new(
                    sub@.len(),
                    |i: int|
                        if 0 <= i < sub@.len() {
                            sub@[i].tree()
                        } else {
                            arbitrary()
                        },
                ),
            },
            QueryPlan::Or { grams, sub } => Tree {
                op: Op::Or,
                grams: texts(grams@),
                sub: Seq::new(
                    sub@.len(),
                    |i: int|
                        if 0 <= i < sub@.len() {
                            sub@[i].tree()
                        } else {
                            arbitrary()
                        },
                ),
            },
        }
    }
}

/// A plan and the gram space to run it in.
#[derive(Debug, PartialEq, Eq)]
pub struct PlannedQuery {
    /// The plan.
    pub plan: QueryPlan,
    /// The gram space.
    pub space: GramSpace,
}

/// The character means something to a regex when it stands unescaped.
pub open spec fn is_meta(c: char) -> bool {
    c == '\\' || c == '.' || c == '+' || c == '*' || c == '?' || c == '(' || c == ')' || c == '|'
        || c == '[' || c == ']' || c == '{' || c == '}' || c == '^' || c == '$' || c == '#' || c
        == '&' || c == '-' || c == '~'
}

/// The text with a backslash before each character that means something to a
/// regex.
pub open spec fn escaped(text: Seq<char>) -> Seq<char>
    decreases text.len(),
{
    if text.len() == 0 {
        text
    } else if is_meta(text.last()) {
        escaped(text.drop_last()).push('\\').push(text.last())
    } else {
        escaped(text.drop_last()).push(text.last())
    }
}

/// `regex_syntax::escape`: each meta character of the text gets a backslash
/// before it.
#[verifier::external_body]
fn escape(text: &str) -> (out: String)
    ensures
        out@ == escaped(text@),
{
    regex_syntax::escape(text)
}

/// A pattern as a regex in a group of its own.
pub open spec fn grouped(pattern: Seq<char>, syntax: QuerySyntax) -> Seq<char> {
    "(?:"@ + (match syntax {
        QuerySyntax::Regex => pattern,
        QuerySyntax::FixedStrings => escaped(pattern),
    }) + ")"@
}

/// The first `n` patterns as alternatives of one regex.
pub open spec fn joined(patterns: Seq<&str>, syntax: QuerySyntax, n: int) -> Seq<char>
    decreases n,
{
    if n <= 0 {
        Seq::empty()
    } else if n == 1 {
        grouped(patterns[0]@, syntax)
    } else {
        joined(patterns, syntax, n - 1) + "|"@ + grouped(patterns[n - 1]@, syntax)
    }
}

/// The regex that stands for all patterns.
pub open spec fn query_text(patterns: Seq<&str>, opts: QueryOptions) -> Seq<char> {
    joined(patterns, opts.syntax, patterns.len() as int)
}

/// The verifier will match the regex case-insensitively.
pub open spec fn insensitive(text: Seq<char>, opts: QueryOptions) -> bool {
    match opts.case {
        QueryCase::Sensitive => false,
        QueryCase::Insensitive => true,
        QueryCase::Smart => smart_case(text),
    }
}

/// The parser settings that follow the verifier's.
pub open spec fn verifier_flags(text: Seq<char>, opts: QueryOptions) -> ParseFlags {
    ParseFlags {
        nest_limit: VERIFIER_NEST_LIMIT,
        octal: false,
        utf8: false,
        multi_line: true,
        case_insensitive: insensitive(text, opts),
        dot_matches_new_line: opts.dotall,
        crlf: opts.crlf,
        unicode: opts.unicode,
    }
}

/// The plan is made in the folded gram space.
pub open spec fn folds(text: Seq<char>, opts: QueryOptions) -> bool {
    opts.folded_space && (insensitive(text, opts) || (opts.syntax == QuerySyntax::Regex
        && inline_insensitive(text)))
}

/// What a regex tree is planned to under the options.
pub open spec fn is_planned(
    out: PlannedQuery,
    table: WeightTable,
    text: Seq<char>,
    opts: QueryOptions,
    h: Regex,
) -> bool {
    &&& out.plan.tree() == planned(
        table,
        PlanContext { fold: folds(text, opts), line_sentinels: opts.line_sentinels },
        h,
    )
    &&& out.space == if folds(text, opts) {
        GramSpace::Folded
    } else {
        GramSpace::Primary
    }
}

/// The regex text under the options has this tree.
pub open spec fn reads_as(text: Seq<char>, opts: QueryOptions, h: Regex) -> bool {
    pattern_syntax(text, verifier_flags(text, opts)) == Ok::<Syntax, Seq<char>>(h.syntax())
}

/// What the patterns plan to under the options, when they are planned.
pub open spec fn is_answer(
    out: PlannedQuery,
    table: WeightTable,
    patterns: Seq<&str>,
    opts: QueryOptions,
) -> bool {
    let text = query_text(patterns, opts);
    if opts.invert || patterns.len() == 0 {
        out.plan == QueryPlan::All && out.space == GramSpace::Primary
    } else {
        exists|h: Regex|
            h.wf() && reads_as(text, opts, h) && #[trigger] is_planned(out, table, text, opts, h)
    }
}

/// Decompose one or more patterns under the verifier's match options.
///
/// The patterns are escaped (for fixed strings), OR-joined, and parsed with
/// the same flags the verifying engine uses, including engine-rule smart
/// case, so the plan can never assume narrower semantics than the match
/// run that follows. Inversion yields [`QueryPlan::All`]: every document may
/// hold a non-matching line.
pub fn query(
    table: &WeightTable,
    patterns: &[&str],
    opts: QueryOptions,
) -> (out: Result<PlannedQuery, QueryError>)
    ensures
        ({
            let text = query_text(patterns@, opts);
            let len = encode_utf8(text).len();
            if opts.invert || patterns@.len() == 0 {
                out matches Ok(p) && p.plan == QueryPlan::All && p.space == GramSpace::Primary
            } else if len > MAX_PATTERN_LEN {
                out == Err::<PlannedQuery, QueryError>(
                    QueryError::PatternTooLong { len: len as usize, max: MAX_PATTERN_LEN },
                )
            } else {
                match out {
                    Ok(p) => exists|h: Regex|
                        h.wf() && reads_as(text, opts, h) && #[trigger] is_planned(
                            p,
                            *table,
                            text,
                            opts,
                            h,
                        ),
                    Err(QueryError::InvalidRegex(message)) => pattern_syntax(
                        text,
                        verifier_flags(text, opts),
                    ) == Err::<Syntax, Seq<char>>(message@),
                    Err(_) => false,
                }
            }
        }),
        out matches Ok(p) ==> is_answer(p, *table, patterns@, opts),
{
    if opts.invert || patterns.len() == 0 {
        return Ok(PlannedQuery { plan: QueryPlan::All, space: GramSpace::Primary });
    }
    let text = match join_patterns(patterns, opts) {
        Ok(text) => text,
        Err(err) => {
            return Err(err);
        },
    };
    let global_insensitive = effective_insensitive(text.as_str(), opts);
    let inline_insensitive = matches!(opts.syntax, QuerySyntax::Regex)
        && has_inline_case_insensitive(text.as_str());
    let fold = opts.folded_space && (global_insensitive || inline_insensitive);
    let hir = match parse_joined(text.as_str(), opts) {
        Ok(hir) => hir,
        Err(err) => {
            return Err(err);
        },
    };
    let ctx = PlanContext { fold, line_sentinels: opts.line_sentinels };
    let plan = query_hir_ctx(table, &hir, ctx);
    let space = if fold {
        GramSpace::Folded
    } else {
        GramSpace::Primary
    };
    let out = PlannedQuery { plan, space };
    assert(is_planned(out, *table, text@, opts, hir));
    Ok(out)
}

/// Escape (for fixed strings), wrap, and OR-join the patterns.
pub fn join_patterns(patterns: &[&str], opts: QueryOptions) -> (out: Result<String, QueryError>)
    ensures
        ({
            let text = query_text(patterns@, opts);
            let len = encode_utf8(text).len();
            match out {
                Ok(out) => len <= MAX_PATTERN_LEN && out@ == text,
                Err(err) => len > MAX_PATTERN_LEN && err == (QueryError::PatternTooLong {
                    len: len as usize,
                    max: MAX_PATTERN_LEN,
                }),
            }
        }),
{
    let mut text: String = String::new();
    let mut i: usize = 0;
    while i < patterns.len()
        invariant
            i <= patterns@.len(),
            text@ == joined(patterns@, opts.syntax, i as int),
        decreases patterns@.len() - i,
    {
        let ghost before = text@;
        if i > 0 {
            text.append("|");
        }
        text.append("(?:");
        match opts.syntax {
            QuerySyntax::Regex => {
                text.append(patterns[i]);
            },
            QuerySyntax::FixedStrings => {
                let quoted = escape(patterns[i]);
                text.append(quoted.as_str());
            },
        }
        text.append(")");
        i = i + 1;
        proof {
            let group = grouped(patterns@[i - 1]@, opts.syntax);
            if i == 1 {
                assert(before =~= Seq::<char>::empty());
                assert(text@ =~= group);
            } else {
                assert(text@ =~= before + "|"@ + group);
            }
        }
    }
    match check_length(text.as_str()) {
        Ok(_) => Ok(text),
        Err(err) => Err(err),
    }
}

/// Whether the verifier will match `text` case-insensitively.
fn effective_insensitive(text: &str, opts: QueryOptions) -> (on: bool)
    ensures
        on == insensitive(text@, opts),
{
    match opts.case {
        QueryCase::Sensitive => false,
        QueryCase::Insensitive => true,
        QueryCase::Smart => smart_case_insensitive(text),
    }
}

/// Parse the joined pattern with the flags the verifying engine uses.
fn parse_joined(text: &str, opts: QueryOptions) -> (out: Result<Regex, QueryError>)
    ensures
        match out {
            Ok(hir) => hir.wf() && reads_as(text@, opts, hir),
            Err(QueryError::InvalidRegex(message)) => pattern_syntax(
                text@,
                verifier_flags(text@, opts),
            ) == Err::<Syntax, Seq<char>>(message@),
            Err(_) => false,
        },
{
    // Multi-line is always on. Sound for any verifier: line anchors are
    // strictly harder to prove impossible than text anchors, so pruning never
    // over-fires.
    let flags = ParseFlags {
        nest_limit: VERIFIER_NEST_LIMIT,
        octal: false,
        utf8: false,
        multi_line: true,
        case_insensitive: effective_insensitive(text, opts),
        dot_matches_new_line: opts.dotall,
        crlf: opts.crlf,
        unicode: opts.unicode,
    };
    match parse_regex(text, flags) {
        Ok(hir) => Ok(hir),
        Err(message) => Err(QueryError::InvalidRegex(message)),
    }
}

/// Fold an already-parsed tree into a plan under an index-format context.
pub fn query_hir_ctx(table: &WeightTable, hir: &Regex, ctx: PlanContext) -> (plan: QueryPlan)
    requires
        hir.wf(),
    ensures
        plan.tree() == planned(*table, ctx, *hir),
{
    let mut analyzer = Analyzer::with_context(table, ctx);
    to_plan(&analyzer.plan(hir))
}

/// Convert the internal query into the public plan, node by node.
fn to_plan(q: &Query) -> (plan: QueryPlan)
    requires
        q.wf(),
    ensures
        plan.tree() == q.tree(),
    decreases q, 1int,
{
    match q.op {
        Op::All => {
            assert(q.tree().grams =~= Seq::<Seq<u8>>::empty());
            assert(q.tree().sub =~= Seq::<Tree>::empty());
            QueryPlan::All
        },
        Op::Nothing => {
            assert(q.tree().grams =~= Seq::<Seq<u8>>::empty());
            assert(q.tree().sub =~= Seq::<Tree>::empty());
            QueryPlan::Nothing
        },
        Op::And => {
            let grams = q.grams.duplicate().into_vec();
            let sub = to_plans(q);
            let plan = QueryPlan::And { grams, sub };
            assert(plan.tree().sub =~= q.tree().sub);
            plan
        },
        Op::Or => {
            let grams = q.grams.duplicate().into_vec();
            let sub = to_plans(q);
            let plan = QueryPlan::Or { grams, sub };
            assert(plan.tree().sub =~= q.tree().sub);
            plan
        },
    }
}

/// The plans of the sub-queries.
fn to_plans(q: &Query) -> (plans: Vec<QueryPlan>)
    requires
        q.wf(),
    ensures
        plans@.len() == q.sub@.len(),
        forall|i: int|
            0 <= i < plans@.len() ==> (#[trigger] plans@[i]).tree() == q.sub@[i].tree(),
    decreases q, 0int,
{
    let mut plans: Vec<QueryPlan> = Vec::new();
    let mut i: usize = 0;
    while i < q.sub.len()
        invariant
            q.wf(),
            i <= q.sub@.len(),
            plans@.len() == i,
            forall|k: int| 0 <= k < i ==> (#[trigger] plans@[k]).tree() == q.sub@[k].tree(),
        decreases q.sub@.len() - i,
    {
        let plan = to_plan(&q.sub[i]);
        plans.push(plan);
        i = i + 1;
    }
    plans
}

/// A plan made under the options never misses: where the joined regex matches
/// some span of a document, the grams of the document's stream satisfy the
/// plan.
pub proof fn law_planned_query_never_misses(
    out: PlannedQuery,
    table: WeightTable,
    text: Seq<char>,
    opts: QueryOptions,
    h: Regex,
    k: Regex,
    d: Seq<u8>,
    a: int,
    b: int,
)
    requires
        h.wf(),
        reads_as(text, opts, h),
        is_planned(out, table, text, opts, h),
        reads_as(text, opts, k),
        matched(k, d, a, b),
    ensures
        ({
            let ctx = PlanContext {
                fold: out.space == GramSpace::Folded,
                line_sentinels: opts.line_sentinels,
            };
            holds(out.plan.tree(), present(table, framed(ctx, d)))
        }),
{
    law_matches_by_syntax(k, h, d, a, b);
    let ctx = PlanContext { fold: folds(text, opts), line_sentinels: opts.line_sentinels };
    law_plan_never_misses(table, ctx, h, d, a, b);
}

} // verus!
