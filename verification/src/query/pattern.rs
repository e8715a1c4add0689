//! Lightweight pattern facts used outside the analysis.

use vstd::prelude::*;

use crate::query::ast::{parse_ast, pattern_ast, Node, SyntaxTree};

verus! {

/// Facts read from the pattern's syntax before planning.
#[derive(Debug, Clone, Copy, PartialEq, Eq, Structural)]
pub struct PatternFacts {
    inline_case_insensitive: bool,
}

/// Flags in the expression switch case-insensitivity on.
pub open spec fn insensitive_flag(n: Node) -> bool
    decreases n,
{
    match n {
        Node::Flags(insensitive) => insensitive == Some(true),
        Node::Repetition(sub) => insensitive_flag(*sub),
        Node::Group(insensitive, sub) => insensitive == Some(true) || insensitive_flag(*sub),
        Node::Alternation(asts) => exists|i: int|
            0 <= i < asts.len() && insensitive_flag(#[trigger] asts[i]),
        Node::Concat(asts) => exists|i: int|
            0 <= i < asts.len() && insensitive_flag(#[trigger] asts[i]),
        _ => false,
    }
}

/// Inline flags of a pattern, when it has valid syntax, switch
/// case-insensitivity on.
pub open spec fn inline_insensitive(pattern: Seq<char>) -> bool {
    pattern_ast(pattern) matches Some(ast) && insensitive_flag(ast)
}

impl PatternFacts {
    /// Whether inline flags switch case-insensitivity on.
    pub closed spec fn folds(self) -> bool {
        self.inline_case_insensitive
    }

    /// Analyze one pattern. Invalid syntax returns no facts; the parser reports
    /// the concrete error afterward.
    #[must_use]
    pub fn analyze(pattern: &str) -> (facts: PatternFacts)
        ensures
            facts.folds() == inline_insensitive(pattern@),
    {
        match parse_ast(pattern) {
            Some(ast) => PatternFacts::of_ast(&ast),
            None => PatternFacts { inline_case_insensitive: false },
        }
    }

    /// The facts of a parsed pattern.
    pub fn of_ast(ast: &SyntaxTree) -> (facts: PatternFacts)
        ensures
            facts.folds() == insensitive_flag(ast.node()),
    {
        PatternFacts { inline_case_insensitive: InlineFlagAnalysis::visit(ast) }
    }

    /// Whether the regex enables case-insensitive matching through inline
    /// flags. A scoped `(?i:...)` only affects part of the regex, but using the
    /// folded gram space for the whole plan remains sound.
    #[must_use]
    pub fn uses_folded_space(self) -> (folded: bool)
        ensures
            folded == self.folds(),
    {
        self.inline_case_insensitive
    }
}

/// The search for flags that switch case-insensitivity on.
pub struct InlineFlagAnalysis;

impl InlineFlagAnalysis {
    /// Whether flags in the expression switch case-insensitivity on.
    pub fn visit(node: &SyntaxTree) -> (found: bool)
        ensures
            found == insensitive_flag(node.node()),
        decreases node,
    {
        match node {
            SyntaxTree::Flags(insensitive) => InlineFlagAnalysis::flags(*insensitive),
            SyntaxTree::Repetition(sub) => InlineFlagAnalysis::visit(sub),
            SyntaxTree::Group(insensitive, sub) => {
                InlineFlagAnalysis::flags(*insensitive) || InlineFlagAnalysis::visit(sub)
            },
            SyntaxTree::Alternation(asts) => {
                let mut i: usize = 0;
                while i < asts.len()
                    invariant
                        i <= asts@.len(),
                        *node == SyntaxTree::Alternation(*asts),
                        node->Alternation_0 == *asts,
                        forall|k: int| 0 <= k < i ==> !insensitive_flag((#[trigger] asts@[k]).node()),
                    decreases asts@.len() - i,
                {
                    if InlineFlagAnalysis::visit(&asts[i]) {
                        assert(insensitive_flag(node.node()->Alternation_0[i as int]));
                        return true;
                    }
                    i = i + 1;
                }
                assert forall|k: int| 0 <= k < asts@.len() implies !insensitive_flag(
                    #[trigger] node.node()->Alternation_0[k],
                ) by {
                    assert(!insensitive_flag(asts@[k].node()));
                }
                false
            },
            SyntaxTree::Concat(asts) => {
                let mut i: usize = 0;
                while i < asts.len()
                    invariant
                        i <= asts@.len(),
                        *node == SyntaxTree::Concat(*asts),
                        node->Concat_0 == *asts,
                        forall|k: int| 0 <= k < i ==> !insensitive_flag((#[trigger] asts@[k]).node()),
                    decreases asts@.len() - i,
                {
                    if InlineFlagAnalysis::visit(&asts[i]) {
                        assert(insensitive_flag(node.node()->Concat_0[i as int]));
                        return true;
                    }
                    i = i + 1;
                }
                assert forall|k: int| 0 <= k < asts@.len() implies !insensitive_flag(
                    #[trigger] node.node()->Concat_0[k],
                ) by {
                    assert(!insensitive_flag(asts@[k].node()));
                }
                false
            },
            _ => false,
        }
    }

    fn flags(insensitive: Option<bool>) -> (on: bool)
        ensures
            on == (insensitive == Some(true)),
    {
        matches!(insensitive, Some(true))
    }
}

} // verus!
