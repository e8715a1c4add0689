//! Planner option helpers that follow the verifier's matcher configuration.

use vstd::prelude::*;

use crate::query::ast::{
    parse_ast, pattern_ast, BracketItem, BracketSet, ItemNode, Node, SetNode, SyntaxTree,
};
use crate::query::pattern::{inline_insensitive, InlineFlagAnalysis};

verus! {

/// The character has Unicode's `Uppercase` property.
pub uninterp spec fn uppercase(c: char) -> bool;

/// `char::is_uppercase`: whether the character has the `Uppercase` property.
/// Which characters have it is std's Unicode table, and is not stated.
#[verifier::external_body]
fn is_upper(c: char) -> (upper: bool)
    ensures
        upper == uppercase(c),
{
    c.is_uppercase()
}

/// A character of the set meets the test.
pub open spec fn set_literal(n: SetNode, test: spec_fn(char) -> bool) -> bool
    decreases n,
{
    match n {
        SetNode::Item(item) => item_literal(item, test),
        SetNode::BinaryOp(lhs, rhs) => set_literal(*lhs, test) || set_literal(*rhs, test),
    }
}

/// A character of the item meets the test; of a range, one of its endpoints.
pub open spec fn item_literal(n: ItemNode, test: spec_fn(char) -> bool) -> bool
    decreases n,
{
    match n {
        ItemNode::Literal(c) => test(c),
        ItemNode::Range(a, b) => test(a) || test(b),
        ItemNode::Bracketed(set) => set_literal(*set, test),
        ItemNode::Union(items) => exists|i: int|
            0 <= i < items.len() && item_literal(#[trigger] items[i], test),
        _ => false,
    }
}

/// A literal character of the expression meets the test. Escape classes,
/// assertions, class names and group names are not literals.
pub open spec fn some_literal(n: Node, test: spec_fn(char) -> bool) -> bool
    decreases n,
{
    match n {
        Node::Literal(c) => test(c),
        Node::ClassBracketed(set) => set_literal(set, test),
        Node::Repetition(sub) => some_literal(*sub, test),
        Node::Group(_, sub) => some_literal(*sub, test),
        Node::Alternation(asts) => exists|i: int|
            0 <= i < asts.len() && some_literal(#[trigger] asts[i], test),
        Node::Concat(asts) => exists|i: int|
            0 <= i < asts.len() && some_literal(#[trigger] asts[i], test),
        _ => false,
    }
}

/// Every character.
pub open spec fn any_char() -> spec_fn(char) -> bool {
    |c: char| true
}

/// The upper-case characters.
pub open spec fn upper_char() -> spec_fn(char) -> bool {
    |c: char| uppercase(c)
}

/// Smart case takes the expression as case-insensitive: it has a literal, and
/// none is upper-case.
pub open spec fn smart_insensitive(n: Node) -> bool {
    some_literal(n, any_char()) && !some_literal(n, upper_char())
}

/// Smart case takes the pattern as case-insensitive.
pub open spec fn smart_case(pattern: Seq<char>) -> bool {
    pattern_ast(pattern) matches Some(ast) && smart_insensitive(ast)
}

/// Whether smart case resolves to case-insensitive for `pattern`: true iff
/// the pattern has at least one literal character and no uppercase literal.
///
/// Escape classes (`\W`, `\pL`), assertions (`\A`, `\b`), ASCII class names,
/// and group names are not literals, while class-set literals and range
/// endpoints are, after escape decoding (`\x41` is an uppercase `A`). An
/// unparseable pattern resolves to sensitive; the plan parse that follows
/// reports the error.
pub fn smart_case_insensitive(pattern: &str) -> (insensitive: bool)
    ensures
        insensitive == smart_case(pattern@),
{
    match parse_ast(pattern) {
        Some(ast) => CaseAnalysis::resolve(&ast),
        None => false,
    }
}

/// Whether the regex enables case-insensitive matching through inline flags.
///
/// A scoped `(?i:...)` only affects part of the regex, but picking the folded
/// gram space for the whole plan is still sound: exact verification keeps the
/// pattern's case-sensitive semantics, while the prefilter avoids variant
/// explosion for the insensitive region.
pub fn has_inline_case_insensitive(pattern: &str) -> (insensitive: bool)
    ensures
        insensitive == inline_insensitive(pattern@),
{
    match parse_ast(pattern) {
        Some(ast) => InlineFlagAnalysis::visit(&ast),
        None => false,
    }
}

/// Literal-character facts of an expression.
pub struct CaseAnalysis {
    /// A literal is upper-case.
    pub any_uppercase: bool,
    /// There is a literal.
    pub any_literal: bool,
}

/// The facts after more of the expression.
pub open spec fn learned(
    before: CaseAnalysis,
    after: CaseAnalysis,
    literal: bool,
    upper: bool,
) -> bool {
    &&& after.any_literal == (before.any_literal || literal)
    &&& after.any_uppercase == (before.any_uppercase || upper)
}

impl CaseAnalysis {
    /// Smart case on a parsed expression.
    pub fn resolve(ast: &SyntaxTree) -> (insensitive: bool)
        ensures
            insensitive == smart_insensitive(ast.node()),
    {
        let mut analysis = CaseAnalysis { any_uppercase: false, any_literal: false };
        analysis.visit(ast);
        analysis.any_literal && !analysis.any_uppercase
    }

    fn done(&self) -> (done: bool)
        ensures
            done == (self.any_uppercase && self.any_literal),
    {
        self.any_uppercase && self.any_literal
    }

    /// Take in the literals of an expression.
    pub fn visit(&mut self, node: &SyntaxTree)
        ensures
            learned(
                *old(self),
                *final(self),
                some_literal(node.node(), any_char()),
                some_literal(node.node(), upper_char()),
            ),
        decreases node,
    {
        if self.done() {
            return;
        }
        match node {
            SyntaxTree::Literal(c) => self.literal(*c),
            SyntaxTree::ClassBracketed(set) => self.class_set(set),
            SyntaxTree::Repetition(sub) => self.visit(sub),
            SyntaxTree::Group(_, sub) => self.visit(sub),
            SyntaxTree::Alternation(asts) => {
                let ghost all = node.node()->Alternation_0;
                let mut i: usize = 0;
                while i < asts.len()
                    invariant
                        i <= asts@.len(),
                        *node == SyntaxTree::Alternation(*asts),
                        node->Alternation_0 == *asts,
                        all == node.node()->Alternation_0,
                        learned(
                            *old(self),
                            *self,
                            some_of(all, i as int, any_char()),
                            some_of(all, i as int, upper_char()),
                        ),
                    decreases asts@.len() - i,
                {
                    self.visit(&asts[i]);
                    i = i + 1;
                    proof {
                        assert(all[i - 1] == asts@[i - 1].node());
                        lemma_some_of(all, i as int, any_char());
                        lemma_some_of(all, i as int, upper_char());
                    }
                }
                assert(all.len() == asts@.len());
            },
            SyntaxTree::Concat(asts) => {
                let ghost all = node.node()->Concat_0;
                let mut i: usize = 0;
                while i < asts.len()
                    invariant
                        i <= asts@.len(),
                        *node == SyntaxTree::Concat(*asts),
                        node->Concat_0 == *asts,
                        all == node.node()->Concat_0,
                        learned(
                            *old(self),
                            *self,
                            some_of(all, i as int, any_char()),
                            some_of(all, i as int, upper_char()),
                        ),
                    decreases asts@.len() - i,
                {
                    self.visit(&asts[i]);
                    i = i + 1;
                    proof {
                        assert(all[i - 1] == asts@[i - 1].node());
                        lemma_some_of(all, i as int, any_char());
                        lemma_some_of(all, i as int, upper_char());
                    }
                }
                assert(all.len() == asts@.len());
            },
            _ => {},
        }
    }

    /// Take in the literals of a class set.
    pub fn class_set(&mut self, set: &BracketSet)
        ensures
            learned(
                *old(self),
                *final(self),
                set_literal(set.node(), any_char()),
                set_literal(set.node(), upper_char()),
            ),
        decreases set,
    {
        if self.done() {
            return;
        }
        match set {
            BracketSet::Item(item) => self.class_item(item),
            BracketSet::BinaryOp(lhs, rhs) => {
                self.class_set(lhs);
                self.class_set(rhs);
            },
        }
    }

    /// Take in the literals of a class item.
    pub fn class_item(&mut self, item: &BracketItem)
        ensures
            learned(
                *old(self),
                *final(self),
                item_literal(item.node(), any_char()),
                item_literal(item.node(), upper_char()),
            ),
        decreases item,
    {
        if self.done() {
            return;
        }
        match item {
            BracketItem::Literal(c) => self.literal(*c),
            BracketItem::Range(a, b) => {
                self.literal(*a);
                self.literal(*b);
            },
            BracketItem::Bracketed(set) => self.class_set(set),
            BracketItem::Union(items) => {
                let ghost all = item.node()->Union_0;
                let mut i: usize = 0;
                while i < items.len()
                    invariant
                        i <= items@.len(),
                        *item == BracketItem::Union(*items),
                        item->Union_0 == *items,
                        all == item.node()->Union_0,
                        learned(
                            *old(self),
                            *self,
                            some_item(all, i as int, any_char()),
                            some_item(all, i as int, upper_char()),
                        ),
                    decreases items@.len() - i,
                {
                    self.class_item(&items[i]);
                    i = i + 1;
                    proof {
                        assert(all[i - 1] == items@[i - 1].node());
                        lemma_some_item(all, i as int, any_char());
                        lemma_some_item(all, i as int, upper_char());
                    }
                }
                assert(all.len() == items@.len());
            },
            _ => {},
        }
    }

    fn literal(&mut self, c: char)
        ensures
            learned(*old(self), *final(self), true, uppercase(c)),
    {
        self.any_literal = true;
        self.any_uppercase = self.any_uppercase || is_upper(c);
    }
}

/// One of the first `n` expressions has such a literal.
spec fn some_of(asts: Seq<Node>, n: int, test: spec_fn(char) -> bool) -> bool {
    exists|i: int| 0 <= i < n && some_literal(#[trigger] asts[i], test)
}

/// One of the first `n` items has such a literal.
spec fn some_item(items: Seq<ItemNode>, n: int, test: spec_fn(char) -> bool) -> bool {
    exists|i: int| 0 <= i < n && item_literal(#[trigger] items[i], test)
}

proof fn lemma_some_of(asts: Seq<Node>, n: int, test: spec_fn(char) -> bool)
    requires
        0 < n <= asts.len(),
    ensures
        some_of(asts, n, test) == (some_of(asts, n - 1, test) || some_literal(asts[n - 1], test)),
{
    if some_of(asts, n - 1, test) {
        let i = choose|i: int| 0 <= i < n - 1 && some_literal(#[trigger] asts[i], test);
        assert(0 <= i < n && some_literal(asts[i], test));
    }
}

proof fn lemma_some_item(items: Seq<ItemNode>, n: int, test: spec_fn(char) -> bool)
    requires
        0 < n <= items.len(),
    ensures
        some_item(items, n, test) == (some_item(items, n - 1, test) || item_literal(
            items[n - 1],
            test,
        )),
{
    if some_item(items, n - 1, test) {
        let i = choose|i: int| 0 <= i < n - 1 && item_literal(#[trigger] items[i], test);
        assert(0 <= i < n && item_literal(items[i], test));
    }
}

} // verus!
