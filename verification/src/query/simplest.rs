//! What combining queries leaves out: nothing is asked for twice.

use vstd::prelude::*;

use crate::query::algebra::{
    attached, combined, common, entails, gram_node, grams_entail, inverted, is_atom, leaf,
    lemma_split, must_factor, overlaps, own, subset, tree_wf, unwrapped, Op, Tree,
};
use crate::query::order::Order;
use crate::query::soundness::combined::lemma_united_contains;
use crate::query::strings::united;

verus! {

/// A query for all documents, or for none, leaves the query that it is combined
/// with as it is, or takes its place.
pub proof fn law_constants_leave_no_trace(q: Tree)
    requires
        tree_wf(q),
        unwrapped(q) == q,
    ensures
        combined(leaf(Op::All), q, Op::And) == q,
        combined(q, leaf(Op::All), Op::And) == q,
        combined(leaf(Op::Nothing), q, Op::Or) == q,
        combined(q, leaf(Op::Nothing), Op::Or) == q,
        combined(leaf(Op::All), q, Op::Or) == leaf(Op::All),
        combined(q, leaf(Op::All), Op::Or) == leaf(Op::All),
        combined(leaf(Op::Nothing), q, Op::And) == leaf(Op::Nothing),
        combined(q, leaf(Op::Nothing), Op::And) == leaf(Op::Nothing),
{
    if q.op == Op::All || q.op == Op::Nothing {
        assert(q.grams =~= Seq::<Seq<u8>>::empty());
        assert(q.sub =~= Seq::<Tree>::empty());
    }
}

/// Grams under one operator gather in one node, which has the grams of both.
pub proof fn law_grams_gather(a: Seq<Seq<u8>>, b: Seq<Seq<u8>>, op: Op, x: Seq<u8>)
    requires
        a.len() > 0,
        b.len() > 0,
        op == Op::And || op == Op::Or,
    ensures
        ({
            let q = combined(gram_node(op, a), gram_node(op, b), op);
            &&& q.op == op
            &&& q.sub.len() == 0
            &&& q.grams.contains(x) <==> a.contains(x) || b.contains(x)
        }),
{
    let (q, r) = (gram_node(op, a), gram_node(op, b));
    lemma_united_contains(a, b, Order::Prefix, x);
    assert(q.sub + r.sub =~= Seq::<Tree>::empty());
    if op == Op::Or {
        lemma_or_entails(a, b);
        lemma_or_entails(b, a);
    }
}

/// Alternatives are seen to imply others exactly where they are among them.
proof fn lemma_or_entails(a: Seq<Seq<u8>>, b: Seq<Seq<u8>>)
    requires
        a.len() > 0,
    ensures
        entails(gram_node(Op::Or, a), gram_node(Op::Or, b)) <==> subset(a, b),
{
    let r = gram_node(Op::Or, b);
    assert forall|g: Seq<u8>| overlaps(#[trigger] seq![g], b) <==> b.contains(g) by {
        assert(seq![g][0] == g);
        assert(seq![g].contains(g));
    }
    if a.len() == 1 {
        assert(a =~= seq![a[0]]);
        assert(a.contains(a[0]));
    }
}

/// Grams that two nodes of one operator share are asked for once, in front of what
/// each of the nodes asks for alone.
pub proof fn law_shared_grams_are_asked_for_once(
    a: Seq<Seq<u8>>,
    b: Seq<Seq<u8>>,
    op: Op,
    x: Seq<u8>,
)
    requires
        op == Op::And || op == Op::Or,
        overlaps(a, b),
        !subset(a, b),
        !subset(b, a),
    ensures
        ({
            let q = combined(gram_node(op, a), gram_node(op, b), inverted(op));
            &&& q.op == op
            &&& q.grams.contains(x) <==> a.contains(x) && b.contains(x)
            &&& q.sub.len() == 1
            &&& q.sub[0] == combined(
                gram_node(op, own(a, b)),
                gram_node(op, own(b, a)),
                inverted(op),
            )
        }),
{
    let (q, r) = (gram_node(op, a), gram_node(op, b));
    let (shared, u, v) = (common(a, b), own(a, b), own(b, a));
    lemma_split(a, b, x);
    let s = choose|s: Seq<u8>| #[trigger] a.contains(s) && b.contains(s);
    let m = choose|m: Seq<u8>| #[trigger] a.contains(m) && !b.contains(m);
    let n = choose|n: Seq<u8>| #[trigger] b.contains(n) && !a.contains(n);
    lemma_split(a, b, s);
    lemma_split(a, b, m);
    lemma_split(b, a, n);
    assert(shared.contains(s) && u.contains(m) && v.contains(n));
    assert forall|g: Seq<u8>| #[trigger] u.contains(g) implies !v.contains(g) && !shared.contains(
        g,
    ) by {
        lemma_split(a, b, g);
        lemma_split(b, a, g);
    }
    assert forall|g: Seq<u8>| #[trigger] v.contains(g) implies !u.contains(g) && !shared.contains(
        g,
    ) by {
        lemma_split(a, b, g);
        lemma_split(b, a, g);
    }
    let (y, z) = (gram_node(op, u), gram_node(op, v));
    let inner = combined(y, z, inverted(op));
    if op == Op::Or {
        lemma_or_entails(a, b);
        lemma_or_entails(b, a);
        lemma_or_entails(u, v);
        lemma_or_entails(v, u);
    }
    assert(!entails(q, r) && !entails(r, q));
    assert(must_factor(q, r, inverted(op))) by {
        if is_atom(q) && is_atom(r) {
            assert(a =~= seq![a[0]] && b =~= seq![b[0]]);
        }
    }
    assert(!entails(y, z) && !entails(z, y));
    lemma_united_contains(u, v, Order::Prefix, m);
    lemma_united_contains(u, v, Order::Prefix, n);
    let w = united(u, v, Order::Prefix);
    assert(common(u, v).len() == 0) by {
        if common(u, v).len() > 0 {
            let g = common(u, v)[0];
            lemma_split(u, v, g);
            assert(common(u, v).contains(g));
        }
    }
    let front = gram_node(op, shared);
    if is_atom(y) && is_atom(z) {
        assert(inner == gram_node(inverted(op), w));
        assert(w.contains(m) && w.contains(n) && m != n);
        assert(!is_atom(inner)) by {
            if w.len() == 1 {
                assert(w[0] == m);
            }
        }
        assert forall|g: Seq<u8>| #[trigger] w.contains(g) implies !shared.contains(g) by {
            lemma_united_contains(u, v, Order::Prefix, g);
        }
    } else {
        assert(inner.sub =~= seq![y, z]);
        assert(inner.grams.len() == 0);
        assert(inner.sub[0] == y && inner.sub[1] == z);
    }
    assert(unwrapped(inner) == inner);
    lemma_front_apart(front, inner, op, s, m, n);
    let out = combined(q, r, inverted(op));
    assert(out == attached(front, inner));
}

/// Shared grams, and what two nodes ask for besides: under one node, or each under
/// its own.
spec fn stands_apart(front: Tree, inner: Tree, op: Op, m: Seq<u8>, n: Seq<u8>) -> bool {
    &&& op == Op::And || op == Op::Or
    &&& front == gram_node(op, front.grams)
    &&& inner.op == inverted(op)
    &&& m != n
    &&& if inner.sub.len() == 2 {
        &&& inner.grams.len() == 0
        &&& inner.sub[0] == gram_node(op, inner.sub[0].grams)
        &&& inner.sub[1] == gram_node(op, inner.sub[1].grams)
        &&& inner.sub[0].grams.contains(m)
        &&& inner.sub[1].grams.contains(n)
        &&& forall|g: Seq<u8>| #[trigger]
            inner.sub[0].grams.contains(g) ==> !front.grams.contains(g)
        &&& forall|g: Seq<u8>| #[trigger]
            inner.sub[1].grams.contains(g) ==> !front.grams.contains(g)
    } else {
        &&& inner.sub.len() == 0
        &&& inner.grams.contains(m)
        &&& inner.grams.contains(n)
        &&& forall|g: Seq<u8>| #[trigger] inner.grams.contains(g) ==> !front.grams.contains(g)
    }
}

/// Neither the shared grams nor the rest are seen to imply the other.
proof fn lemma_front_apart(
    front: Tree,
    inner: Tree,
    op: Op,
    s: Seq<u8>,
    m: Seq<u8>,
    n: Seq<u8>,
)
    requires
        stands_apart(front, inner, op, m, n),
        front.grams.contains(s),
    ensures
        !entails(front, inner),
        !entails(inner, front),
        !is_atom(inner),
{
    if is_atom(inner) {
        assert(inner.grams[0] == m);
    }
    lemma_not_asked(front.grams, front, inner, op, m, n);
    assert(seq![s][0] == s);
    assert(seq![s].contains(s));
    assert(subset(seq![s], front.grams));
    lemma_not_asked(seq![s], front, inner, op, m, n);
    if inner.sub.len() == 2 {
        let (y, z) = (inner.sub[0], inner.sub[1]);
        assert(y.grams.contains(m));
        if op == Op::And {
            assert(!subset(front.grams, y.grams));
            assert(!entails(y, front));
        } else {
            assert(!overlaps(inner.grams, front.grams));
            assert(!grams_entail(inner.grams, front));
        }
    } else {
        assert(inner.grams.contains(m));
        assert(seq![m][0] == m);
        if op == Op::And {
            assert(!seq![m].contains(s));
            assert(!subset(front.grams, seq![m]));
            assert(!grams_entail(seq![m], front));
        } else {
            assert(!overlaps(inner.grams, front.grams));
            assert(!grams_entail(inner.grams, front));
        }
    }
}

/// The shared grams are not seen to imply the rest.
proof fn lemma_not_asked(
    t: Seq<Seq<u8>>,
    front: Tree,
    inner: Tree,
    op: Op,
    m: Seq<u8>,
    n: Seq<u8>,
)
    requires
        stands_apart(front, inner, op, m, n),
        subset(t, front.grams),
    ensures
        !grams_entail(t, inner),
{
    if inner.sub.len() == 2 {
        let (y, z) = (inner.sub[0], inner.sub[1]);
        assert(y.grams.contains(m));
        assert(z.grams.contains(n));
        if op == Op::And {
            assert(!subset(y.grams, t));
            assert(!subset(z.grams, t));
            assert(!grams_entail(t, y));
            assert(!grams_entail(t, z));
            assert(!overlaps(t, inner.grams));
        } else {
            assert(!overlaps(t, y.grams));
            assert(!grams_entail(t, y));
        }
    } else {
        assert(inner.grams.contains(m));
        assert(!subset(inner.grams, t));
        assert(!overlaps(t, inner.grams));
    }
}

} // verus!
