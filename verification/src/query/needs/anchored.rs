//! How the bytes that an anchored pattern needs at the edge of a line follow from
//! its parts.

use vstd::prelude::*;

use crate::query::edges::{
    anchored_branches, anchored_bytes, class_bytes, is_line_look, line_bytes, shown_bytes,
    tail_shown, Edge,
};
use crate::query::hir::{Assertion, CharClass, Regex};
use crate::query::needs::parts::parts_of;

verus! {

/// The bytes of the branches are the bytes of the alternative.
proof fn lemma_anchored_branches(h: Regex, edge: Edge, n: int, b: u8)
    requires
        h is Alternation,
        0 <= n <= parts_of(h).len(),
        forall|i: int| 0 <= i < n ==> line_bytes(#[trigger] parts_of(h)[i], edge) is Some,
    ensures
        anchored_branches(h, edge, n) matches Some(set) && (set.contains(b) <==> exists|i: int|
            0 <= i < n && (line_bytes(#[trigger] parts_of(h)[i], edge)->0).contains(b)),
    decreases n,
{
    if n > 0 {
        lemma_anchored_branches(h, edge, n - 1, b);
        let own = line_bytes(parts_of(h)[n - 1], edge)->0;
        assert(anchored_bytes(parts_of(h)[n - 1], edge) == Some(own));
        let head = anchored_branches(h, edge, n - 1)->0;
        assert(anchored_branches(h, edge, n) == Some(head.union(own)));
        if own.contains(b) {
            assert((line_bytes(parts_of(h)[n - 1], edge)->0).contains(b));
        }
        if exists|i: int| 0 <= i < n && (line_bytes(#[trigger] parts_of(h)[i], edge)->0).contains(b) {
            let i = choose|i: int|
                0 <= i < n && (line_bytes(#[trigger] parts_of(h)[i], edge)->0).contains(b);
            if i < n - 1 {
                assert(0 <= i < n - 1 && (line_bytes(parts_of(h)[i], edge)->0).contains(b));
            }
        }
    }
}

/// Where each branch of an alternative needs one of some bytes at the edge of a
/// line, the alternative needs one of the bytes of all its branches there.
pub proof fn law_anchored_alternative_needs_either(h: Regex, edge: Edge, b: u8)
    requires
        h is Alternation,
        parts_of(h).len() > 0,
        forall|i: int|
            0 <= i < parts_of(h).len() ==> line_bytes(#[trigger] parts_of(h)[i], edge) is Some,
    ensures
        line_bytes(h, edge) matches Some(set) && (set.contains(b) <==> exists|i: int|
            0 <= i < parts_of(h).len() && (line_bytes(
                #[trigger] parts_of(h)[i],
                edge,
            )->0).contains(b)),
{
    let n = parts_of(h).len() as int;
    lemma_anchored_branches(h, edge, n, b);
    lemma_anchored_branches(h, edge, n, 10);
    let first = line_bytes(parts_of(h)[0], edge)->0;
    assert(anchored_bytes(parts_of(h)[0], edge) == Some(first));
    let some = choose|c: u8| first.contains(c);
    assert(first.contains(some)) by {
        if forall|c: u8| !first.contains(c) {
            assert(first =~= Set::<u8>::empty());
        }
    }
    lemma_anchored_branches(h, edge, n, some);
    assert((line_bytes(parts_of(h)[0], edge)->0).contains(some));
}

/// A group needs at the edge of a line what is in it, and so does a repetition
/// that has at least one copy.
pub proof fn law_anchored_group_needs_what_it_holds(h: Regex, sub: Regex, edge: Edge)
    requires
        (h matches Regex::Capture(inner) && *inner == sub) || (h matches Regex::Repetition(rep)
            && rep.min >= 1 && *rep.sub == sub),
    ensures
        line_bytes(h, edge) == line_bytes(sub, edge),
{
}

/// A class next to a line anchor needs one of its bytes there. The class must not
/// be empty, nor take a line break.
pub proof fn law_anchored_class_needs_its_bytes(h: Regex, class: CharClass, edge: Edge, some: u8)
    requires
        h matches Regex::Concat(subs) && subs@.len() == 2 && match edge {
            Edge::Start => (subs@[0] == Regex::Look(Assertion::Start) || subs@[0] == Regex::Look(
                Assertion::StartLF,
            )) && subs@[1] == Regex::Class(class),
            Edge::End => (subs@[1] == Regex::Look(Assertion::End) || subs@[1] == Regex::Look(
                Assertion::EndLF,
            )) && subs@[0] == Regex::Class(class),
        },
        class_bytes(class, edge).contains(some),
        !class_bytes(class, edge).contains(10),
    ensures
        line_bytes(h, edge) == Some(class_bytes(class, edge)),
{
    let subs = parts_of(h);
    let set = class_bytes(class, edge);
    assert(Set::<u8>::empty().union(set) =~= set);
    assert(tail_shown(subs, edge, 1, Set::empty()) == Some(set));
}

/// Behind a line anchor, a literal that may be missing and one that may not need
/// the first byte of either.
pub proof fn law_anchored_optional_literal_needs_either(h: Regex, u: Seq<u8>, v: Seq<u8>, b: u8)
    requires
        h matches Regex::Concat(subs) && subs@.len() == 3 && (subs@[0] == Regex::Look(
            Assertion::Start,
        ) || subs@[0] == Regex::Look(Assertion::StartLF)) && (subs@[1] matches Regex::Repetition(rep)
            && rep.min == 0 && (*rep.sub matches Regex::Literal(lit) && lit@ == u)) && (subs@[2]
            matches Regex::Literal(lit) && lit@ == v),
        u.len() > 0,
        v.len() > 0,
        u[0] != 10,
        v[0] != 10,
    ensures
        line_bytes(h, Edge::Start) matches Some(set) && (set.contains(b) <==> b == u[0] || b
            == v[0]),
{
    let subs = parts_of(h);
    let none = Set::<u8>::empty();
    assert(shown_bytes(*subs[1]->Repetition_0.sub, Edge::Start).0 == set![u[0]]);
    assert(shown_bytes(subs[1], Edge::Start).0 == set![u[0]]);
    let both = none.union(set![u[0]]).union(set![v[0]]);
    assert(tail_shown(subs, Edge::Start, 2, none.union(set![u[0]])) == Some(both));
    assert(tail_shown(subs, Edge::Start, 1, none) == Some(both));
    assert(both.contains(u[0]));
    assert(is_line_look(Edge::Start, subs[0]->Look_0));
}

} // verus!
