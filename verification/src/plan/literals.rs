//! Which characters and flags of a written expression decide on its case.

use vstd::prelude::*;

use crate::plan::options::{
    any_char, item_literal, set_literal, smart_insensitive, some_literal, upper_char, uppercase,
};
use crate::query::ast::{ItemNode, Node, SetNode};
use crate::query::pattern::insensitive_flag;

verus! {

/// A piece of a written expression.
pub ghost enum Piece {
    Tree(Node),
    Class(SetNode),
    Item(ItemNode),
}

/// The pieces right below one, whatever joins them.
pub open spec fn below(piece: Piece) -> Seq<Piece> {
    match piece {
        Piece::Tree(Node::ClassBracketed(set)) => seq![Piece::Class(set)],
        Piece::Tree(Node::Repetition(sub)) => seq![Piece::Tree(*sub)],
        Piece::Tree(Node::Group(_, sub)) => seq![Piece::Tree(*sub)],
        Piece::Tree(Node::Alternation(subs)) => subs.map(|i: int, n: Node| Piece::Tree(n)),
        Piece::Tree(Node::Concat(subs)) => subs.map(|i: int, n: Node| Piece::Tree(n)),
        Piece::Class(SetNode::Item(item)) => seq![Piece::Item(item)],
        Piece::Class(SetNode::BinaryOp(lhs, rhs)) => seq![Piece::Class(*lhs), Piece::Class(*rhs)],
        Piece::Item(ItemNode::Bracketed(set)) => seq![Piece::Class(*set)],
        Piece::Item(ItemNode::Union(items)) => items.map(|i: int, n: ItemNode| Piece::Item(n)),
        _ => Seq::empty(),
    }
}

/// `inner` is found in `piece` by going down step by step.
pub open spec fn found_in(piece: Piece, path: Seq<int>, inner: Piece) -> bool
    decreases path.len(),
{
    if path.len() == 0 {
        piece == inner
    } else {
        0 <= path[0] < below(piece).len() && found_in(
            below(piece)[path[0]],
            path.drop_first(),
            inner,
        )
    }
}

/// The piece is the character itself, or a range that starts or ends with it.
pub open spec fn spells(piece: Piece, c: char) -> bool {
    match piece {
        Piece::Tree(Node::Literal(x)) => x == c,
        Piece::Item(ItemNode::Literal(x)) => x == c,
        Piece::Item(ItemNode::Range(a, b)) => a == c || b == c,
        _ => false,
    }
}

/// The character stands in the expression as a literal, at any depth.
pub open spec fn has_literal(piece: Piece, c: char) -> bool {
    exists|path: Seq<int>, inner: Piece| #[trigger] found_in(piece, path, inner) && spells(inner, c)
}

/// Some literal of the piece meets the test.
spec fn tested(piece: Piece, test: spec_fn(char) -> bool) -> bool {
    match piece {
        Piece::Tree(n) => some_literal(n, test),
        Piece::Class(n) => set_literal(n, test),
        Piece::Item(n) => item_literal(n, test),
    }
}

/// A piece meets the test by itself or through one below it.
proof fn lemma_tested(piece: Piece, test: spec_fn(char) -> bool)
    ensures
        tested(piece, test) <==> (exists|c: char| #[trigger] spells(piece, c) && test(c)) || (
        exists|i: int| 0 <= i < below(piece).len() && tested(#[trigger] below(piece)[i], test)),
{
    let kids = below(piece);
    match piece {
        Piece::Tree(Node::Literal(x)) => {
            assert(spells(piece, x));
        },
        Piece::Item(ItemNode::Literal(x)) => {
            assert(spells(piece, x));
        },
        Piece::Item(ItemNode::Range(a, b)) => {
            assert(spells(piece, a));
            assert(spells(piece, b));
        },
        Piece::Tree(Node::Alternation(subs)) => {
            lemma_some_sub(subs, kids, test);
        },
        Piece::Tree(Node::Concat(subs)) => {
            lemma_some_sub(subs, kids, test);
        },
        Piece::Item(ItemNode::Union(items)) => {
            if tested(piece, test) {
                let i = choose|i: int|
                    0 <= i < items.len() && item_literal(#[trigger] items[i], test);
                assert(tested(kids[i], test));
            }
            if exists|i: int| 0 <= i < kids.len() && tested(#[trigger] kids[i], test) {
                let i = choose|i: int| 0 <= i < kids.len() && tested(#[trigger] kids[i], test);
                assert(item_literal(items[i], test));
            }
        },
        Piece::Class(SetNode::BinaryOp(lhs, rhs)) => {
            assert(kids[0] == Piece::Class(*lhs));
            assert(kids[1] == Piece::Class(*rhs));
            assert(tested(kids[0], test) == set_literal(*lhs, test));
            assert(tested(kids[1], test) == set_literal(*rhs, test));
        },
        _ => {
            if kids.len() > 0 {
                assert(tested(kids[0], test) == tested(piece, test));
            }
        },
    }
}

proof fn lemma_some_sub(subs: Seq<Node>, kids: Seq<Piece>, test: spec_fn(char) -> bool)
    requires
        kids == subs.map(|i: int, n: Node| Piece::Tree(n)),
    ensures
        (exists|i: int| 0 <= i < subs.len() && some_literal(#[trigger] subs[i], test)) <==> (exists|
            i: int,
        |
            0 <= i < kids.len() && tested(#[trigger] kids[i], test)),
{
    if exists|i: int| 0 <= i < subs.len() && some_literal(#[trigger] subs[i], test) {
        let i = choose|i: int| 0 <= i < subs.len() && some_literal(#[trigger] subs[i], test);
        assert(tested(kids[i], test));
    }
    if exists|i: int| 0 <= i < kids.len() && tested(#[trigger] kids[i], test) {
        let i = choose|i: int| 0 <= i < kids.len() && tested(#[trigger] kids[i], test);
        assert(some_literal(subs[i], test));
    }
}

/// A literal found on a path is seen.
proof fn lemma_seen(piece: Piece, path: Seq<int>, inner: Piece, c: char, test: spec_fn(char) -> bool)
    requires
        found_in(piece, path, inner),
        spells(inner, c),
        test(c),
    ensures
        tested(piece, test),
    decreases path.len(),
{
    lemma_tested(piece, test);
    if path.len() > 0 {
        lemma_seen(below(piece)[path[0]], path.drop_first(), inner, c, test);
    }
}

/// What is right below a piece is found in it.
proof fn lemma_found_below(piece: Piece, i: int, c: char)
    requires
        0 <= i < below(piece).len(),
        has_literal(below(piece)[i], c),
    ensures
        has_literal(piece, c),
{
    let (path, inner) = choose|path: Seq<int>, inner: Piece| #[trigger]
        found_in(below(piece)[i], path, inner) && spells(inner, c);
    let longer = seq![i] + path;
    assert(longer.drop_first() =~= path);
    assert(found_in(piece, longer, inner));
}

/// A literal that is seen is in the piece itself or below it.
proof fn lemma_where(piece: Piece, test: spec_fn(char) -> bool) -> (r: Option<int>)
    requires
        tested(piece, test),
    ensures
        r matches Some(i) ==> 0 <= i < below(piece).len() && tested(below(piece)[i], test),
        r is None ==> exists|c: char| #[trigger] has_literal(piece, c) && test(c),
{
    lemma_tested(piece, test);
    if exists|c: char| #[trigger] spells(piece, c) && test(c) {
        let c = choose|c: char| #[trigger] spells(piece, c) && test(c);
        assert(found_in(piece, Seq::empty(), piece));
        assert(has_literal(piece, c));
        None
    } else {
        Some(
            choose|i: int|
                0 <= i < below(piece).len() && tested(#[trigger] below(piece)[i], test),
        )
    }
}

/// A literal that is seen in an expression is found somewhere.
proof fn lemma_found(n: Node, test: spec_fn(char) -> bool)
    requires
        some_literal(n, test),
    ensures
        exists|c: char| #[trigger] has_literal(Piece::Tree(n), c) && test(c),
    decreases n,
{
    let piece = Piece::Tree(n);
    if let Some(i) = lemma_where(piece, test) {
        let kid = below(piece)[i];
        match n {
            Node::ClassBracketed(set) => lemma_found_set(set, test),
            Node::Repetition(sub) => lemma_found(*sub, test),
            Node::Group(_, sub) => lemma_found(*sub, test),
            Node::Alternation(subs) => lemma_found(subs[i], test),
            Node::Concat(subs) => lemma_found(subs[i], test),
            _ => {},
        }
        let c = choose|c: char| #[trigger] has_literal(kid, c) && test(c);
        lemma_found_below(piece, i, c);
    }
}

proof fn lemma_found_set(n: SetNode, test: spec_fn(char) -> bool)
    requires
        set_literal(n, test),
    ensures
        exists|c: char| #[trigger] has_literal(Piece::Class(n), c) && test(c),
    decreases n,
{
    let piece = Piece::Class(n);
    if let Some(i) = lemma_where(piece, test) {
        let kid = below(piece)[i];
        match n {
            SetNode::Item(item) => lemma_found_item(item, test),
            SetNode::BinaryOp(lhs, rhs) => if i == 0 {
                lemma_found_set(*lhs, test);
            } else {
                lemma_found_set(*rhs, test);
            },
        }
        let c = choose|c: char| #[trigger] has_literal(kid, c) && test(c);
        lemma_found_below(piece, i, c);
    }
}

proof fn lemma_found_item(n: ItemNode, test: spec_fn(char) -> bool)
    requires
        item_literal(n, test),
    ensures
        exists|c: char| #[trigger] has_literal(Piece::Item(n), c) && test(c),
    decreases n,
{
    let piece = Piece::Item(n);
    if let Some(i) = lemma_where(piece, test) {
        let kid = below(piece)[i];
        match n {
            ItemNode::Bracketed(set) => lemma_found_set(*set, test),
            ItemNode::Union(items) => lemma_found_item(items[i], test),
            _ => {},
        }
        let c = choose|c: char| #[trigger] has_literal(kid, c) && test(c);
        lemma_found_below(piece, i, c);
    }
}

/// Smart case reads every literal of an expression, however deep it stands under
/// alternatives, sequences, groups, repetitions and classes, and no other
/// character: it takes the expression as case-insensitive exactly where there is
/// a literal and none of the literals is upper-case.
pub proof fn law_smart_case_reads_every_literal(n: Node)
    ensures
        smart_insensitive(n) <==> (exists|c: char| #[trigger] has_literal(Piece::Tree(n), c)) && (
        forall|c: char| #[trigger] has_literal(Piece::Tree(n), c) ==> !uppercase(c)),
{
    let piece = Piece::Tree(n);
    if some_literal(n, any_char()) {
        lemma_found(n, any_char());
    }
    if some_literal(n, upper_char()) {
        lemma_found(n, upper_char());
        let c = choose|c: char| #[trigger] has_literal(piece, c) && upper_char()(c);
        assert(has_literal(piece, c) && uppercase(c));
    }
    assert forall|c: char| #[trigger] has_literal(piece, c) implies some_literal(n, any_char()) && (
    uppercase(c) ==> some_literal(n, upper_char())) by {
        let (path, inner) = choose|path: Seq<int>, inner: Piece| #[trigger]
            found_in(piece, path, inner) && spells(inner, c);
        lemma_seen(piece, path, inner, c, any_char());
        if uppercase(c) {
            lemma_seen(piece, path, inner, c, upper_char());
        }
    }
}

/// The piece is made of flags, or is a group with flags, that switch
/// case-insensitivity on.
pub open spec fn switches_on(piece: Piece) -> bool {
    match piece {
        Piece::Tree(Node::Flags(on)) => on == Some(true),
        Piece::Tree(Node::Group(on, _)) => on == Some(true),
        _ => false,
    }
}

/// Flags that switch case-insensitivity on stand somewhere in the expression.
pub open spec fn has_switch(piece: Piece) -> bool {
    exists|path: Seq<int>, inner: Piece| #[trigger]
        found_in(piece, path, inner) && switches_on(inner)
}

proof fn lemma_switch_below(piece: Piece, i: int)
    requires
        0 <= i < below(piece).len(),
        has_switch(below(piece)[i]),
    ensures
        has_switch(piece),
{
    let (path, inner) = choose|path: Seq<int>, inner: Piece| #[trigger]
        found_in(below(piece)[i], path, inner) && switches_on(inner);
    let longer = seq![i] + path;
    assert(longer.drop_first() =~= path);
    assert(found_in(piece, longer, inner));
}

proof fn lemma_switch_found(n: Node)
    requires
        insensitive_flag(n),
    ensures
        has_switch(Piece::Tree(n)),
    decreases n,
{
    let piece = Piece::Tree(n);
    if switches_on(piece) {
        assert(found_in(piece, Seq::empty(), piece));
    } else {
        match n {
            Node::Repetition(sub) => {
                lemma_switch_found(*sub);
                lemma_switch_below(piece, 0);
            },
            Node::Group(_, sub) => {
                lemma_switch_found(*sub);
                lemma_switch_below(piece, 0);
            },
            Node::Alternation(subs) => {
                let i = choose|i: int| 0 <= i < subs.len() && insensitive_flag(#[trigger] subs[i]);
                lemma_switch_found(subs[i]);
                lemma_switch_below(piece, i);
            },
            Node::Concat(subs) => {
                let i = choose|i: int| 0 <= i < subs.len() && insensitive_flag(#[trigger] subs[i]);
                lemma_switch_found(subs[i]);
                lemma_switch_below(piece, i);
            },
            _ => {},
        }
    }
}

/// No flags stand in a class.
proof fn lemma_no_switch(piece: Piece, path: Seq<int>, inner: Piece)
    requires
        !(piece is Tree),
        found_in(piece, path, inner),
    ensures
        !switches_on(inner),
    decreases path.len(),
{
    if path.len() > 0 {
        lemma_no_switch(below(piece)[path[0]], path.drop_first(), inner);
    }
}

proof fn lemma_switch_seen(n: Node, path: Seq<int>, inner: Piece)
    requires
        found_in(Piece::Tree(n), path, inner),
        switches_on(inner),
    ensures
        insensitive_flag(n),
    decreases path.len(),
{
    let piece = Piece::Tree(n);
    if path.len() > 0 {
        let kid = below(piece)[path[0]];
        match kid {
            Piece::Tree(sub) => {
                lemma_switch_seen(sub, path.drop_first(), inner);
                match n {
                    Node::Alternation(subs) => {
                        assert(insensitive_flag(subs[path[0]]));
                    },
                    Node::Concat(subs) => {
                        assert(insensitive_flag(subs[path[0]]));
                    },
                    _ => {},
                }
            },
            _ => lemma_no_switch(kid, path.drop_first(), inner),
        }
    }
}

/// Inline flags count wherever they stand in an expression: it switches
/// case-insensitivity on exactly where flags somewhere in it do.
pub proof fn law_inline_flags_count_anywhere(n: Node)
    ensures
        insensitive_flag(n) <==> has_switch(Piece::Tree(n)),
{
    if insensitive_flag(n) {
        lemma_switch_found(n);
    }
    if has_switch(Piece::Tree(n)) {
        let (path, inner) = choose|path: Seq<int>, inner: Piece| #[trigger]
            found_in(Piece::Tree(n), path, inner) && switches_on(inner);
        lemma_switch_seen(n, path, inner);
    }
}

/// Alternatives have a literal, or an upper-case one, exactly where one of them
/// has, and so have expressions one after the other.
pub proof fn law_joined_expressions_join_their_literals(
    n: Node,
    subs: Seq<Node>,
    test: spec_fn(char) -> bool,
)
    requires
        n == Node::Alternation(subs) || n == Node::Concat(subs),
    ensures
        some_literal(n, test) <==> exists|i: int|
            0 <= i < subs.len() && some_literal(#[trigger] subs[i], test),
{
}

/// Smart case takes alternatives as case-insensitive where it takes each of them
/// so, and sees no upper-case literal in any that it takes so.
pub proof fn law_smart_case_of_alternatives(subs: Seq<Node>)
    ensures
        subs.len() > 0 && (forall|i: int|
            0 <= i < subs.len() ==> smart_insensitive(#[trigger] subs[i])) ==> smart_insensitive(
            Node::Alternation(subs),
        ),
        smart_insensitive(Node::Alternation(subs)) ==> forall|i: int|
            0 <= i < subs.len() && some_literal(subs[i], any_char()) ==> smart_insensitive(
                #[trigger] subs[i],
            ),
{
    let n = Node::Alternation(subs);
    law_joined_expressions_join_their_literals(n, subs, any_char());
    law_joined_expressions_join_their_literals(n, subs, upper_char());
    if subs.len() > 0 && (forall|i: int|
        0 <= i < subs.len() ==> smart_insensitive(#[trigger] subs[i])) {
        assert(smart_insensitive(subs[0]));
        assert(some_literal(subs[0], any_char()));
        if some_literal(n, upper_char()) {
            let i = choose|i: int|
                0 <= i < subs.len() && some_literal(#[trigger] subs[i], upper_char());
            assert(smart_insensitive(subs[i]));
        }
    }
}

} // verus!
