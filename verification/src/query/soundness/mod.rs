//! Why a plan never misses a match.
//!
//! A summary *admits* a span of a text when everything it says of its matches
//! is true of that span and of the grams of the text. Every combining rule
//! keeps this: where the parts admit their spans, the result admits the whole.

pub mod analyzed;
pub mod asked;
pub mod combined;
pub mod demanded;
pub mod documents;
pub mod flushed;
pub mod gapped;
pub mod gathered;
pub mod junctions;
pub mod known;
pub mod lowered;
pub mod members;
pub mod needed;
pub mod reached;
pub mod refused;
pub mod richest;
pub mod repeated;
pub mod shown;
pub mod spelled;
pub mod wide;

use vstd::prelude::*;

use crate::extract::{has_gram, occurs_at};
use crate::query::algebra::{holds, leaf, tree_wf, Op};
use crate::query::flush::extends;
use crate::query::info::Info;
use crate::query::order::{cleaned, lemma_cleaned, Order};
use crate::query::strings::{cut, cut_all};
use crate::table::WeightTable;

verus! {

/// The grams of a text, as a presence test.
pub open spec fn present(t: WeightTable, f: Seq<u8>) -> spec_fn(Seq<u8>) -> bool {
    |g: Seq<u8>| has_gram(t, f, g)
}

/// Some string of the set stands at the edge of `s` that `order` names.
pub open spec fn has_edge(order: Order, set: Seq<Seq<u8>>, s: Seq<u8>) -> bool {
    exists|p: Seq<u8>| #[trigger] set.contains(p) && extends(order, p, s)
}

/// `s` occurs somewhere in `f`.
pub open spec fn occurs_in(s: Seq<u8>, f: Seq<u8>) -> bool {
    exists|at: int| occurs_at(s, f, at)
}

/// Some string of the set occurs in `f`.
pub open spec fn some_occurs(set: Seq<Seq<u8>>, f: Seq<u8>) -> bool {
    exists|s: Seq<u8>| #[trigger] set.contains(s) && occurs_in(s, f)
}

/// Two blocks of the set, one after the other, stand at the edge of `s`.
pub open spec fn has_two(order: Order, e: Seq<Seq<u8>>, s: Seq<u8>) -> bool {
    exists|u: Seq<u8>, v: Seq<u8>| #[trigger]
        e.contains(u) && #[trigger] e.contains(v) && extends(order, u + v, s)
}

/// `s` is one block of the set, or has two of them at both edges.
pub open spec fn is_run(e: Seq<Seq<u8>>, s: Seq<u8>) -> bool {
    e.contains(s) || (has_two(Order::Prefix, e, s) && has_two(Order::Suffix, e, s))
}

/// What a summary says of its matches is true of the span `a..b` of `f`.
pub open spec fn admits(x: Info, t: WeightTable, f: Seq<u8>, a: int, b: int) -> bool {
    &&& 0 <= a <= b <= f.len()
    &&& a == b ==> x.can_empty
    &&& x.exact matches Some(exact) ==> exact.contains(f.subrange(a, b))
    &&& x.exact is None && a < b ==> has_edge(Order::Prefix, x.prefix, f.subrange(a, b))
        && has_edge(Order::Suffix, x.suffix, f.subrange(a, b))
    &&& x.plus_base matches Some(e) ==> x.exact is None && (a < b ==> is_run(e, f.subrange(a, b)))
    &&& tree_wf(x.query)
    &&& holds(x.query, present(t, f))
}

/// A summary with an exact set has committed no gram yet, and its query is
/// well formed.
pub open spec fn settled(x: Info) -> bool {
    &&& tree_wf(x.query)
    &&& x.exact is Some ==> x.query == leaf(Op::All) && x.plus_base is None
}

pub proof fn lemma_extends_trans(order: Order, p: Seq<u8>, q: Seq<u8>, s: Seq<u8>)
    requires
        extends(order, p, q),
        extends(order, q, s),
    ensures
        extends(order, p, s),
{
    match order {
        Order::Prefix => {
            assert(p =~= s.subrange(0, p.len() as int));
        },
        Order::Suffix => {
            assert(p =~= s.subrange(s.len() - p.len(), s.len() as int));
        },
    }
}

pub proof fn lemma_extends_self(order: Order, s: Seq<u8>)
    ensures
        extends(order, s, s),
        extends(order, Seq::<u8>::empty(), s),
{
    assert(s.subrange(0, s.len() as int) =~= s);
    assert(s.subrange(0, 0) =~= Seq::<u8>::empty());
    assert(s.subrange(s.len() as int, s.len() as int) =~= Seq::<u8>::empty());
}

/// What stands at an edge of an occurring string occurs too.
pub proof fn lemma_edge_occurs(order: Order, p: Seq<u8>, s: Seq<u8>, f: Seq<u8>)
    requires
        extends(order, p, s),
        occurs_in(s, f),
    ensures
        occurs_in(p, f),
{
    let at = choose|at: int| occurs_at(s, f, at);
    let shift = match order {
        Order::Prefix => 0int,
        Order::Suffix => s.len() - p.len(),
    };
    assert(p =~= f.subrange(at + shift, at + shift + p.len())) by {
        assert(s =~= f.subrange(at, at + s.len()));
    }
    assert(occurs_at(p, f, at + shift));
}

pub proof fn lemma_cut_extends(order: Order, s: Seq<u8>, keep: int)
    requires
        keep >= 0,
    ensures
        extends(order, cut(order, s, keep), s),
{
    lemma_extends_self(order, s);
}

/// A span of a text occurs in it.
pub proof fn lemma_span_occurs(f: Seq<u8>, a: int, b: int)
    requires
        0 <= a <= b <= f.len(),
    ensures
        occurs_in(f.subrange(a, b), f),
{
    assert(occurs_at(f.subrange(a, b), f, a));
}

pub proof fn lemma_cut_contains(order: Order, set: Seq<Seq<u8>>, keep: int, s: Seq<u8>)
    requires
        set.contains(s),
    ensures
        cut_all(order, set, keep).contains(cut(order, s, keep)),
{
    let n = choose|n: int| 0 <= n < set.len() && set[n] == s;
    assert(cut_all(order, set, keep)[n] == cut(order, s, keep));
}

pub proof fn lemma_cleaned_contains(order: Order, set: Seq<Seq<u8>>, s: Seq<u8>)
    ensures
        cleaned(order, set).contains(s) <==> set.contains(s),
{
    lemma_cleaned(order, set);
}

} // verus!
