//! The regex as it is written, where inline flags and the spelling
//! of literals can still be seen.

use vstd::prelude::*;

use regex_syntax::ast as outside;
use regex_syntax::ast::Ast as Parsed;

verus! {

/// A set in a bracketed class.
#[derive(Debug, PartialEq, Eq)]
pub enum BracketSet {
    /// One item.
    Item(BracketItem),
    /// Two sets joined by an operator.
    BinaryOp(Box<BracketSet>, Box<BracketSet>),
}

/// An item in a bracketed class.
#[derive(Debug, PartialEq, Eq)]
pub enum BracketItem {
    /// No item.
    Empty,
    /// One character.
    Literal(char),
    /// The characters between two.
    Range(char, char),
    /// An ASCII class such as `[:alnum:]`.
    Ascii,
    /// A Unicode class such as `\pL`.
    Unicode,
    /// A Perl class such as `\d`.
    Perl,
    /// A nested bracketed class.
    Bracketed(Box<BracketSet>),
    /// Several items.
    Union(Vec<BracketItem>),
}

/// A regular expression as it is written.
#[derive(Debug, PartialEq, Eq)]
pub enum SyntaxTree {
    /// The empty expression.
    Empty,
    /// Inline flags: whether they set or clear case-insensitivity.
    Flags(Option<bool>),
    /// One character.
    Literal(char),
    /// Any character.
    Dot,
    /// A zero-width assertion.
    Assertion,
    /// A Unicode class such as `\pL`.
    ClassUnicode,
    /// A Perl class such as `\d`.
    ClassPerl,
    /// A bracketed class.
    ClassBracketed(BracketSet),
    /// A repeated expression.
    Repetition(Box<SyntaxTree>),
    /// A group, with what its flags say of case-insensitivity.
    Group(Option<bool>, Box<SyntaxTree>),
    /// Any one of the expressions.
    Alternation(Vec<SyntaxTree>),
    /// One expression after the other.
    Concat(Vec<SyntaxTree>),
}

/// The set behind a [`BracketSet`].
pub ghost enum SetNode {
    Item(ItemNode),
    BinaryOp(Box<SetNode>, Box<SetNode>),
}

/// The item behind a [`BracketItem`].
pub ghost enum ItemNode {
    Empty,
    Literal(char),
    Range(char, char),
    Ascii,
    Unicode,
    Perl,
    Bracketed(Box<SetNode>),
    Union(Seq<ItemNode>),
}

/// The tree behind an [`SyntaxTree`].
pub ghost enum Node {
    Empty,
    Flags(Option<bool>),
    Literal(char),
    Dot,
    Assertion,
    ClassUnicode,
    ClassPerl,
    ClassBracketed(SetNode),
    Repetition(Box<Node>),
    Group(Option<bool>, Box<Node>),
    Alternation(Seq<Node>),
    Concat(Seq<Node>),
}

impl BracketSet {
    /// The set this stands for.
    pub open spec fn node(self) -> SetNode
        decreases self,
    {
        match self {
            BracketSet::Item(item) => SetNode::Item(item.node()),
            BracketSet::BinaryOp(lhs, rhs) => SetNode::BinaryOp(
                Box::new(lhs.node()),
                Box::new(rhs.node()),
            ),
        }
    }
}

impl BracketItem {
    /// The item this stands for.
    pub open spec fn node(self) -> ItemNode
        decreases self,
    {
        match self {
            BracketItem::Empty => ItemNode::Empty,
            BracketItem::Literal(c) => ItemNode::Literal(c),
            BracketItem::Range(a, b) => ItemNode::Range(a, b),
            BracketItem::Ascii => ItemNode::Ascii,
            BracketItem::Unicode => ItemNode::Unicode,
            BracketItem::Perl => ItemNode::Perl,
            BracketItem::Bracketed(set) => ItemNode::Bracketed(Box::new(set.node())),
            BracketItem::Union(items) => ItemNode::Union(
                Seq::new(
                    items@.len(),
                    |i: int|
                        if 0 <= i < items@.len() {
                            items@[i].node()
                        } else {
                            arbitrary()
                        },
                ),
            ),
        }
    }
}

impl SyntaxTree {
    /// The tree this stands for.
    pub open spec fn node(self) -> Node
        decreases self,
    {
        match self {
            SyntaxTree::Empty => Node::Empty,
            SyntaxTree::Flags(insensitive) => Node::Flags(insensitive),
            SyntaxTree::Literal(c) => Node::Literal(c),
            SyntaxTree::Dot => Node::Dot,
            SyntaxTree::Assertion => Node::Assertion,
            SyntaxTree::ClassUnicode => Node::ClassUnicode,
            SyntaxTree::ClassPerl => Node::ClassPerl,
            SyntaxTree::ClassBracketed(set) => Node::ClassBracketed(set.node()),
            SyntaxTree::Repetition(sub) => Node::Repetition(Box::new(sub.node())),
            SyntaxTree::Group(insensitive, sub) => Node::Group(insensitive, Box::new(sub.node())),
            SyntaxTree::Alternation(asts) => Node::Alternation(
                Seq::new(
                    asts@.len(),
                    |i: int|
                        if 0 <= i < asts@.len() {
                            asts@[i].node()
                        } else {
                            arbitrary()
                        },
                ),
            ),
            SyntaxTree::Concat(asts) => Node::Concat(
                Seq::new(
                    asts@.len(),
                    |i: int|
                        if 0 <= i < asts@.len() {
                            asts@[i].node()
                        } else {
                            arbitrary()
                        },
                ),
            ),
        }
    }
}

/// `regex_syntax::ast::ClassSetItem`.
#[verifier::external_type_specification]
#[verifier::external_body]
pub struct ExClassSetItem(regex_syntax::ast::ClassSetItem);

/// `regex_syntax::ast::ClassSet`.
#[verifier::external_type_specification]
#[verifier::external_body]
pub struct ExClassSet(regex_syntax::ast::ClassSet);

/// `regex_syntax::ast::Ast`.
#[verifier::external_type_specification]
#[verifier::external_body]
pub struct ExAst(regex_syntax::ast::Ast);

/// A `regex_syntax::ast::ClassSetItem` taken over variant by variant, spans
/// and class names left out. Nothing is stated of it on its own: it is part
/// of what [`parse_ast`] hands back.
#[verifier::external_body]
fn class_item_of(item: &regex_syntax::ast::ClassSetItem) -> (own: BracketItem) {
    match item {
        outside::ClassSetItem::Empty(_) => BracketItem::Empty,
        outside::ClassSetItem::Literal(x) => BracketItem::Literal(x.c),
        outside::ClassSetItem::Range(x) => BracketItem::Range(x.start.c, x.end.c),
        outside::ClassSetItem::Ascii(_) => BracketItem::Ascii,
        outside::ClassSetItem::Unicode(_) => BracketItem::Unicode,
        outside::ClassSetItem::Perl(_) => BracketItem::Perl,
        outside::ClassSetItem::Bracketed(x) => {
            BracketItem::Bracketed(Box::new(class_set_of(&x.kind)))
        },
        outside::ClassSetItem::Union(x) => {
            BracketItem::Union(x.items.iter().map(class_item_of).collect())
        },
    }
}

/// A `regex_syntax::ast::ClassSet` taken over variant by variant, spans and
/// the operator's kind left out. Nothing is stated of it on its own: it is
/// part of what [`parse_ast`] hands back.
#[verifier::external_body]
fn class_set_of(set: &regex_syntax::ast::ClassSet) -> (own: BracketSet) {
    match set {
        outside::ClassSet::Item(x) => BracketSet::Item(class_item_of(x)),
        outside::ClassSet::BinaryOp(x) => {
            BracketSet::BinaryOp(Box::new(class_set_of(&x.lhs)), Box::new(class_set_of(&x.rhs)))
        },
    }
}

/// `regex_syntax::ast::Flags`.
#[verifier::external_type_specification]
#[verifier::external_body]
pub struct ExFlags(regex_syntax::ast::Flags);

/// `regex_syntax::ast::Flags::flag_state` for the case-insensitive flag:
/// whether the flags set it, clear it or leave it. Nothing is stated of it on
/// its own: it is part of what [`parse_ast`] hands back.
#[verifier::external_body]
fn flags_of(flags: &regex_syntax::ast::Flags) -> (insensitive: Option<bool>) {
    flags.flag_state(outside::Flag::CaseInsensitive)
}

/// Each `regex_syntax::ast::Ast` of a list as [`ast_of`] takes it over.
#[verifier::external_body]
fn asts_of(asts: &[regex_syntax::ast::Ast]) -> (own: Vec<SyntaxTree>) {
    asts.iter().map(ast_of).collect()
}

/// A `regex_syntax::ast::Ast` taken over variant by variant, spans left out;
/// of flags, what they say of case-insensitivity. Nothing is stated of it on
/// its own: it is part of what [`parse_ast`] hands back.
#[verifier::external_body]
fn ast_of(ast: &regex_syntax::ast::Ast) -> (own: SyntaxTree) {
    match ast {
        Parsed::Empty(_) => SyntaxTree::Empty,
        Parsed::Flags(x) => SyntaxTree::Flags(flags_of(&x.flags)),
        Parsed::Literal(x) => SyntaxTree::Literal(x.c),
        Parsed::Dot(_) => SyntaxTree::Dot,
        Parsed::Assertion(_) => SyntaxTree::Assertion,
        Parsed::ClassUnicode(_) => SyntaxTree::ClassUnicode,
        Parsed::ClassPerl(_) => SyntaxTree::ClassPerl,
        Parsed::ClassBracketed(x) => SyntaxTree::ClassBracketed(class_set_of(&x.kind)),
        Parsed::Repetition(x) => SyntaxTree::Repetition(Box::new(ast_of(&x.ast))),
        Parsed::Group(x) => group_of(x),
        Parsed::Alternation(x) => SyntaxTree::Alternation(asts_of(&x.asts)),
        Parsed::Concat(x) => SyntaxTree::Concat(asts_of(&x.asts)),
    }
}

/// `regex_syntax::ast::Group`.
#[verifier::external_type_specification]
#[verifier::external_body]
pub struct ExGroup(regex_syntax::ast::Group);

/// A `regex_syntax::ast::Group` taken over with the expression in it and, of
/// the flags that `Group::flags` gives a non-capturing group, what
/// `Flags::flag_state` says of case-insensitivity. Nothing is stated of it on
/// its own: it is part of what [`parse_ast`] hands back.
#[verifier::external_body]
fn group_of(group: &regex_syntax::ast::Group) -> (own: SyntaxTree) {
    let insensitive = group.flags().and_then(flags_of);
    SyntaxTree::Group(insensitive, Box::new(ast_of(&group.ast)))
}

/// The syntax tree that `regex-syntax`'s AST parser with its default settings
/// reads from a pattern, when it accepts it.
pub uninterp spec fn pattern_ast(pattern: Seq<char>) -> Option<Node>;

/// `regex_syntax::ast::parse::Parser::new().parse` on the pattern, its tree
/// taken over node by node and its error left out. The result depends on the
/// pattern's characters alone; the grammar is the crate's and is not stated.
#[verifier::external_body]
pub(crate) fn parse_ast(pattern: &str) -> (ast: Option<SyntaxTree>)
    ensures
        (match ast {
            Some(ast) => Some(ast.node()),
            None => None,
        }) == pattern_ast(pattern@),
{
    outside::parse::Parser::new().parse(pattern).ok().map(|ast| ast_of(&ast))
}

} // verus!
