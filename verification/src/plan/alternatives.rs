//! Any one of several patterns is enough for a document to satisfy their plan.

use vstd::prelude::*;
use vstd::string::*;
use vstd::utf8::encode_utf8;

use crate::extract::occurs_at;
use crate::plan::options::smart_case;
use crate::plan::{
    escaped, grouped, is_answer, is_meta, is_planned, joined, law_planned_query_never_misses,
    query_text, reads_as, GramSpace, PlannedQuery, QueryCase, QueryOptions, QuerySyntax,
};
use crate::query::algebra::holds;
use crate::query::analyze::PlanContext;
use crate::query::hir::{matched, Regex, Syntax};
use crate::query::parser::{pattern_syntax, ParseFlags};
use crate::query::pattern::inline_insensitive;
use crate::query::soundness::junctions::framed;
use crate::query::soundness::present;
use crate::table::WeightTable;

verus! {

/// An expression in a group that captures nothing.
pub open spec fn in_group(x: Seq<char>) -> Seq<char> {
    seq!['(', '?', ':'] + x + seq![')']
}

/// The text is made of the parts, each in a group, with a bar before every group
/// but the first.
pub open spec fn lists(text: Seq<char>, parts: Seq<Seq<char>>) -> bool
    decreases parts.len(),
{
    if parts.len() == 0 {
        false
    } else if parts.len() == 1 {
        text == in_group(parts[0])
    } else {
        let n = in_group(parts[0]).len() as int;
        &&& n < text.len()
        &&& text.take(n) == in_group(parts[0])
        &&& text[n] == '|'
        &&& lists(text.skip(n + 1), parts.drop_first())
    }
}

/// The text may end inside a comment: it can switch comments on by flags, and no
/// line break follows a `#` of it.
pub open spec fn ends_in_comment(x: Seq<char>) -> bool {
    &&& x.contains('x')
    &&& exists|i: int| 0 <= i < x.len() - 1 && #[trigger] x[i] == '(' && x[i + 1] == '?'
    &&& exists|i: int|
        0 <= i < x.len() && #[trigger] x[i] == '#' && forall|j: int|
            i < j < x.len() ==> x[j] != '\n'
}

/// Every part is an expression that stands by itself under the settings.
pub open spec fn stand_alone(parts: Seq<Seq<char>>, flags: ParseFlags) -> bool {
    forall|i: int|
        0 <= i < parts.len() ==> pattern_syntax(#[trigger] parts[i], flags) is Ok
            && !ends_in_comment(parts[i])
}

/// What the text reads as matches wherever one of the parts, read alone, does.
pub open spec fn matches_each(text: Seq<char>, parts: Seq<Seq<char>>, flags: ParseFlags) -> bool {
    forall|i: int, h: Regex, k: Regex, d: Seq<u8>, a: int, b: int|
        #![trigger parts[i], matched(h, d, a, b), matched(k, d, a, b)]
        0 <= i < parts.len() && pattern_syntax(text, flags) == Ok::<Syntax, Seq<char>>(h.syntax())
            && pattern_syntax(parts[i], flags) == Ok::<Syntax, Seq<char>>(k.syntax()) && matched(
            k,
            d,
            a,
            b,
        ) ==> matched(h, d, a, b)
}

/// The regex grammar under the settings: groups with bars between them are
/// alternatives, and the flags in a group end with it. Comments are the one thing
/// that can reach out of a group.
pub open spec fn bars_part_alternatives(flags: ParseFlags) -> bool {
    forall|text: Seq<char>, parts: Seq<Seq<char>>| #[trigger]
        lists(text, parts) && stand_alone(parts, flags) ==> matches_each(text, parts, flags)
}

/// The expression matches the characters wherever their bytes stand.
pub open spec fn matches_text(h: Regex, x: Seq<char>) -> bool {
    forall|d: Seq<u8>, a: int| #[trigger]
        occurs_at(encode_utf8(x), d, a) ==> matched(h, d, a, a + encode_utf8(x).len())
}

/// The regex grammar under the settings: a text in which every character with a
/// meaning of its own stands behind a backslash matches itself.
pub open spec fn escapes_are_literal(flags: ParseFlags) -> bool {
    forall|x: Seq<char>|
        exists|h: Regex|
            pattern_syntax(#[trigger] escaped(x), flags) == Ok::<Syntax, Seq<char>>(h.syntax())
                && #[trigger] matches_text(h, x)
}

/// The settings that the options ask the parser for; lines are always told
/// apart, and bytes that are no UTF-8 may match.
pub open spec fn settings_of(opts: QueryOptions, case_insensitive: bool) -> ParseFlags {
    ParseFlags {
        nest_limit: 250,
        octal: false,
        utf8: false,
        multi_line: true,
        case_insensitive,
        dot_matches_new_line: opts.dotall,
        crlf: opts.crlf,
        unicode: opts.unicode,
    }
}

/// The options take letters in either case.
pub open spec fn either_case(opts: QueryOptions, text: Seq<char>) -> bool {
    opts.case == QueryCase::Insensitive || (opts.case == QueryCase::Smart && smart_case(text))
}

/// The patterns as regexes: as they are, or with every character with a meaning
/// of its own behind a backslash.
pub open spec fn as_regexes(patterns: Seq<&str>, syntax: QuerySyntax) -> Seq<Seq<char>> {
    Seq::new(
        patterns.len(),
        |i: int|
            if syntax == QuerySyntax::FixedStrings {
                escaped(patterns[i]@)
            } else {
                patterns[i]@
            },
    )
}

/// The document's grams satisfy the plan, in the space the plan is to be run in.
pub open spec fn satisfies(
    out: PlannedQuery,
    table: WeightTable,
    opts: QueryOptions,
    d: Seq<u8>,
) -> bool {
    let ctx = PlanContext {
        fold: out.space == GramSpace::Folded,
        line_sentinels: opts.line_sentinels,
    };
    holds(out.plan.tree(), present(table, framed(ctx, d)))
}

proof fn lemma_grouped(pattern: Seq<char>, syntax: QuerySyntax)
    ensures
        grouped(pattern, syntax) == in_group(
            if syntax == QuerySyntax::FixedStrings {
                escaped(pattern)
            } else {
                pattern
            },
        ),
{
    reveal_strlit("(?:");
    reveal_strlit(")");
    let x = match syntax {
        QuerySyntax::Regex => pattern,
        QuerySyntax::FixedStrings => escaped(pattern),
    };
    assert("(?:"@ =~= seq!['(', '?', ':']);
    assert(")"@ =~= seq![')']);
}

/// One more part at the end of a list.
proof fn lemma_lists_push(text: Seq<char>, parts: Seq<Seq<char>>, x: Seq<char>)
    requires
        lists(text, parts),
    ensures
        lists(text + seq!['|'] + in_group(x), parts.push(x)),
    decreases parts.len(),
{
    let more = parts.push(x);
    let longer = text + seq!['|'] + in_group(x);
    let n = in_group(parts[0]).len() as int;
    assert(longer.take(n) =~= in_group(parts[0]));
    if parts.len() == 1 {
        assert(more.drop_first() =~= seq![x]);
        assert(longer.skip(n + 1) =~= in_group(x));
        assert(lists(longer.skip(n + 1), more.drop_first()));
    } else {
        let rest = text.skip(n + 1);
        lemma_lists_push(rest, parts.drop_first(), x);
        assert(more.drop_first() =~= parts.drop_first().push(x));
        assert(longer.skip(n + 1) =~= rest + seq!['|'] + in_group(x));
        assert(lists(longer.skip(n + 1), more.drop_first()));
    }
    assert(in_group(more[0]).len() == n);
    assert(longer[n] == '|');
}

proof fn lemma_joined_lists(patterns: Seq<&str>, syntax: QuerySyntax, n: int)
    requires
        0 < n <= patterns.len(),
    ensures
        lists(joined(patterns, syntax, n), as_regexes(patterns, syntax).take(n)),
    decreases n,
{
    let parts = as_regexes(patterns, syntax);
    lemma_grouped(patterns[n - 1]@, syntax);
    if n == 1 {
        assert(parts.take(1) =~= seq![parts[0]]);
    } else {
        lemma_joined_lists(patterns, syntax, n - 1);
        lemma_lists_push(joined(patterns, syntax, n - 1), parts.take(n - 1), parts[n - 1]);
        assert(parts.take(n) =~= parts.take(n - 1).push(parts[n - 1]));
        reveal_strlit("|");
        assert("|"@ =~= seq!['|']);
    }
}

/// The regex that stands for several patterns lists all of them as alternatives,
/// in order, each in a group of its own.
pub proof fn law_query_text_lists_the_patterns(patterns: Seq<&str>, opts: QueryOptions)
    requires
        patterns.len() > 0,
    ensures
        lists(query_text(patterns, opts), as_regexes(patterns, opts.syntax)),
{
    let parts = as_regexes(patterns, opts.syntax);
    lemma_joined_lists(patterns, opts.syntax, patterns.len() as int);
    assert(parts.take(patterns.len() as int) =~= parts);
}

/// A question mark stands behind a backslash.
proof fn lemma_escaped_marks(x: Seq<char>, i: int)
    requires
        0 <= i < escaped(x).len(),
        escaped(x)[i] == '?',
    ensures
        i > 0,
        escaped(x)[i - 1] == '\\',
    decreases x.len(),
{
    if x.len() > 0 {
        let head = escaped(x.drop_last());
        if i < head.len() {
            lemma_escaped_marks(x.drop_last(), i);
        } else if is_meta(x.last()) {
            assert(escaped(x) =~= head.push('\\').push(x.last()));
        }
    }
}

proof fn lemma_escaped_closed(x: Seq<char>)
    ensures
        !ends_in_comment(escaped(x)),
{
    let e = escaped(x);
    if exists|i: int| 0 <= i < e.len() - 1 && #[trigger] e[i] == '(' && e[i + 1] == '?' {
        let i = choose|i: int| 0 <= i < e.len() - 1 && #[trigger] e[i] == '(' && e[i + 1] == '?';
        lemma_escaped_marks(x, i + 1);
    }
}

/// For any list of patterns, a document in which any one of them, read on its
/// own, matches satisfies the plan, or every document does. The patterns are read
/// under the settings that the options ask for; each is an expression by itself,
/// and none leaves a comment open.
pub proof fn law_any_pattern_is_enough(
    out: PlannedQuery,
    table: WeightTable,
    patterns: Seq<&str>,
    opts: QueryOptions,
    i: int,
    k: Regex,
    d: Seq<u8>,
    a: int,
    b: int,
)
    requires
        is_answer(out, table, patterns, opts),
        0 <= i < patterns.len(),
        ({
            let flags = settings_of(opts, either_case(opts, query_text(patterns, opts)));
            let parts = as_regexes(patterns, opts.syntax);
            &&& bars_part_alternatives(flags)
            &&& stand_alone(parts, flags)
            &&& pattern_syntax(parts[i], flags) == Ok::<Syntax, Seq<char>>(k.syntax())
        }),
        matched(k, d, a, b),
    ensures
        satisfies(out, table, opts, d),
{
    if !opts.invert {
        let text = query_text(patterns, opts);
        let flags = settings_of(opts, either_case(opts, text));
        let parts = as_regexes(patterns, opts.syntax);
        let h = choose|h: Regex|
            h.wf() && reads_as(text, opts, h) && #[trigger] is_planned(out, table, text, opts, h);
        law_query_text_lists_the_patterns(patterns, opts);
        assert(matches_each(text, parts, flags));
        assert(pattern_syntax(text, flags) == Ok::<Syntax, Seq<char>>(h.syntax()));
        assert(parts[i] == parts[i]);
        assert(matched(h, d, a, b));
        law_planned_query_never_misses(out, table, text, opts, h, h, d, a, b);
    }
}

/// For any list of fixed strings, a document that holds the bytes of any one of
/// them satisfies the plan.
pub proof fn law_any_fixed_string_is_enough(
    out: PlannedQuery,
    table: WeightTable,
    patterns: Seq<&str>,
    opts: QueryOptions,
    i: int,
    d: Seq<u8>,
    a: int,
)
    requires
        is_answer(out, table, patterns, opts),
        opts.syntax == QuerySyntax::FixedStrings,
        0 <= i < patterns.len(),
        ({
            let flags = settings_of(opts, either_case(opts, query_text(patterns, opts)));
            bars_part_alternatives(flags) && escapes_are_literal(flags)
        }),
        occurs_at(encode_utf8(patterns[i]@), d, a),
    ensures
        satisfies(out, table, opts, d),
{
    let flags = settings_of(opts, either_case(opts, query_text(patterns, opts)));
    let parts = as_regexes(patterns, opts.syntax);
    assert forall|j: int| 0 <= j < parts.len() implies pattern_syntax(
        #[trigger] parts[j],
        flags,
    ) is Ok && !ends_in_comment(parts[j]) by {
        assert(parts[j] == escaped(patterns[j]@));
        lemma_escaped_closed(patterns[j]@);
    }
    let x = patterns[i]@;
    assert(parts[i] == escaped(x));
    let k = choose|k: Regex|
        pattern_syntax(escaped(x), flags) == Ok::<Syntax, Seq<char>>(k.syntax())
            && #[trigger] matches_text(k, x);
    law_any_pattern_is_enough(
        out,
        table,
        patterns,
        opts,
        i,
        k,
        d,
        a,
        a + encode_utf8(x).len(),
    );
}

/// Where lines without a match are wanted, or nothing is asked for, every
/// document satisfies the plan.
pub proof fn law_inverted_queries_let_all_pass(
    out: PlannedQuery,
    table: WeightTable,
    patterns: Seq<&str>,
    opts: QueryOptions,
    d: Seq<u8>,
)
    requires
        is_answer(out, table, patterns, opts),
        opts.invert || patterns.len() == 0,
    ensures
        satisfies(out, table, opts, d),
{
}

/// The folded space is used exactly where the index holds it and letters match in
/// either case, everywhere or in a part of a regex.
pub proof fn law_folded_space_is_for_either_case(
    out: PlannedQuery,
    table: WeightTable,
    patterns: Seq<&str>,
    opts: QueryOptions,
)
    requires
        is_answer(out, table, patterns, opts),
        !opts.invert,
        patterns.len() > 0,
    ensures
        ({
            let text = query_text(patterns, opts);
            out.space == GramSpace::Folded <==> opts.folded_space && (either_case(opts, text) || (
            opts.syntax == QuerySyntax::Regex && inline_insensitive(text)))
        }),
{
}

} // verus!
