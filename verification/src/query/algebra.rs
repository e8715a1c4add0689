//! The boolean gram query and its simplifying algebra.
//!
//! A [`Query`] is a conservative matching machine: it matches everything the
//! source regex matches, and usually more. The algebra (`and`, `or`) keeps
//! the tree small by absorbing identities, merging same-op nodes, factoring
//! out shared grams, and dropping clauses that another clause already
//! implies.

use vstd::prelude::*;

use crate::num::{add_to_max, clamp};
use crate::query::gram::{same_bytes, texts, Gram};
use crate::query::order::{
    ascending, before, is_before, lemma_before_total, lemma_before_transitive, lemma_cleaned,
    lemma_strict_is_ascending, strictly_ascending, Order,
};
use crate::query::strings::{united, StringSet};

verus! {

/// The operator at a query node.
#[derive(Debug, Clone, Copy, PartialEq, Eq, Structural)]
pub enum Op {
    /// Matches every document; the index cannot constrain this clause.
    All,
    /// Matches no document; provably empty.
    Nothing,
    /// Every gram and every sub-query must be present.
    And,
    /// At least one gram or sub-query must be present.
    Or,
}

/// A conservative boolean query over gram presence.
///
/// For [`Op::And`]/[`Op::Or`], `grams` holds atomic gram leaves (so single
/// grams need no wrapper node) and `sub` holds nested queries.
#[derive(Debug, PartialEq, Eq)]
pub struct Query {
    pub op: Op,
    pub grams: StringSet,
    pub sub: Vec<Query>,
}

/// The tree behind a [`Query`].
pub ghost struct Tree {
    pub op: Op,
    pub grams: Seq<Seq<u8>>,
    pub sub: Seq<Tree>,
}

impl Query {
    /// The tree this query stands for.
    pub open spec fn tree(self) -> Tree
        decreases self,
    {
        Tree {
            op: self.op,
            grams: self.grams@,
            sub: Seq::new(
                self.sub@.len(),
                |i: int|
                    if 0 <= i < self.sub@.len() {
                        self.sub@[i].tree()
                    } else {
                        arbitrary()
                    },
            ),
        }
    }

    /// The sets are well formed at every node, and so is the tree.
    pub open spec fn wf(self) -> bool
        decreases self,
    {
        &&& self.grams.wf()
        &&& forall|i: int| 0 <= i < self.sub@.len() ==> (#[trigger] self.sub@[i]).wf()
        &&& tree_wf(self.tree())
    }
}

/// Grams are clean in prefix order at every node, and a constant node holds
/// nothing.
pub open spec fn tree_wf(q: Tree) -> bool
    decreases q,
{
    &&& strictly_ascending(Order::Prefix, q.grams)
    &&& q.op == Op::All || q.op == Op::Nothing ==> q.grams.len() == 0 && q.sub.len() == 0
    &&& forall|i: int| 0 <= i < q.sub.len() ==> tree_wf(#[trigger] q.sub[i])
}

/// Whether a document with exactly the grams `present` satisfies the query.
pub open spec fn holds(q: Tree, present: spec_fn(Seq<u8>) -> bool) -> bool
    decreases q,
{
    match q.op {
        Op::All => true,
        Op::Nothing => false,
        Op::And => {
            &&& forall|g: Seq<u8>| #[trigger] q.grams.contains(g) ==> present(g)
            &&& forall|i: int| 0 <= i < q.sub.len() ==> holds(#[trigger] q.sub[i], present)
        },
        Op::Or => {
            ||| exists|g: Seq<u8>| #[trigger] q.grams.contains(g) && present(g)
            ||| exists|i: int| 0 <= i < q.sub.len() && holds(#[trigger] q.sub[i], present)
        },
    }
}

/// The grams in the whole tree.
pub open spec fn weight(q: Tree) -> nat
    decreases q, q.sub.len() + 1,
{
    q.grams.len() + sub_weight(q, q.sub.len() as int)
}

/// The grams in the first `n` sub-queries.
pub open spec fn sub_weight(q: Tree, n: int) -> nat
    decreases q, n,
{
    if n <= 0 || n > q.sub.len() {
        0
    } else {
        sub_weight(q, n - 1) + weight(q.sub[n - 1])
    }
}

/// A leaf with no grams and no sub-queries.
pub open spec fn leaf(op: Op) -> Tree {
    Tree { op, grams: Seq::empty(), sub: Seq::empty() }
}

/// An `op` node carrying exactly these grams.
pub open spec fn gram_node(op: Op, grams: Seq<Seq<u8>>) -> Tree {
    Tree { op, grams, sub: Seq::empty() }
}

/// A single gram.
pub open spec fn is_atom(q: Tree) -> bool {
    q.grams.len() == 1 && q.sub.len() == 0
}

/// Every string of `a` is one of `b`.
pub open spec fn subset(a: Seq<Seq<u8>>, b: Seq<Seq<u8>>) -> bool {
    forall|x: Seq<u8>| #[trigger] a.contains(x) ==> b.contains(x)
}

/// Some string of `a` is one of `b`.
pub open spec fn overlaps(a: Seq<Seq<u8>>, b: Seq<Seq<u8>>) -> bool {
    exists|x: Seq<u8>| #[trigger] a.contains(x) && b.contains(x)
}

/// Whether the grams `t`, all present, are seen to imply `q`.
pub open spec fn grams_entail(t: Seq<Seq<u8>>, q: Tree) -> bool
    decreases q,
{
    match q.op {
        Op::Or => (exists|i: int| 0 <= i < q.sub.len() && grams_entail(t, #[trigger] q.sub[i]))
            || overlaps(t, q.grams),
        Op::And => (forall|i: int| 0 <= i < q.sub.len() ==> grams_entail(t, #[trigger] q.sub[i]))
            && subset(q.grams, t),
        _ => false,
    }
}

/// Whether `q` is seen to imply `r`.
pub open spec fn entails(q: Tree, r: Tree) -> bool
    decreases q,
{
    if q.op == Op::Nothing || r.op == Op::All {
        true
    } else if q.op == Op::All || r.op == Op::Nothing {
        false
    } else if q.op == Op::And || is_atom(q) {
        grams_entail(q.grams, r)
    } else {
        &&& forall|i: int| 0 <= i < q.sub.len() ==> entails(#[trigger] q.sub[i], r)
        &&& forall|g: Seq<u8>| #[trigger] q.grams.contains(g) ==> grams_entail(seq![g], r)
    }
}

/// A node with nothing but one sub-query stands for that sub-query.
pub open spec fn unwrapped(q: Tree) -> Tree {
    if q.grams.len() == 0 && q.sub.len() == 1 {
        q.sub[0]
    } else {
        q
    }
}

/// The other of the two connectives.
pub open spec fn inverted(op: Op) -> Op {
    if op == Op::And {
        Op::Or
    } else {
        Op::And
    }
}

/// The strings of `a` that `b` holds too.
pub open spec fn common(a: Seq<Seq<u8>>, b: Seq<Seq<u8>>) -> Seq<Seq<u8>>
    decreases a.len(),
{
    if a.len() == 0 {
        Seq::empty()
    } else if b.contains(a.last()) {
        common(a.drop_last(), b).push(a.last())
    } else {
        common(a.drop_last(), b)
    }
}

/// The strings of `a` that `b` does not hold.
pub open spec fn own(a: Seq<Seq<u8>>, b: Seq<Seq<u8>>) -> Seq<Seq<u8>>
    decreases a.len(),
{
    if a.len() == 0 {
        Seq::empty()
    } else if b.contains(a.last()) {
        own(a.drop_last(), b)
    } else {
        own(a.drop_last(), b).push(a.last())
    }
}

/// `guest` folded into `host`, which already uses the operator.
pub open spec fn absorbed(host: Tree, guest: Tree) -> Tree {
    Tree {
        op: host.op,
        grams: united(host.grams, guest.grams, Order::Prefix),
        sub: host.sub + guest.sub,
    }
}

/// `child` as a sub-query of `host`.
pub open spec fn attached(host: Tree, child: Tree) -> Tree {
    Tree { op: host.op, grams: host.grams, sub: host.sub.push(child) }
}

/// Neither node uses `op` and they are not two atoms: they meet under a new
/// node.
pub open spec fn must_factor(q: Tree, r: Tree, op: Op) -> bool {
    q.op != op && r.op != op && !(is_atom(q) && is_atom(r))
}

/// Two queries joined under an operator that one of them uses, or two atoms.
pub open spec fn joined(q: Tree, r: Tree, op: Op) -> Tree {
    if q.op == op && (r.op == op || is_atom(r)) {
        absorbed(q, r)
    } else if r.op == op && is_atom(q) {
        absorbed(r, q)
    } else if is_atom(q) && is_atom(r) {
        Tree { op, grams: united(q.grams, r.grams, Order::Prefix), sub: q.sub }
    } else if q.op == op {
        attached(q, r)
    } else {
        attached(r, q)
    }
}

/// `q` and `r` under `op`, where no factoring is needed.
pub open spec fn combined_flat(q: Tree, r: Tree, op: Op) -> Tree {
    if entails(q, r) {
        if op == Op::And {
            q
        } else {
            r
        }
    } else if entails(r, q) {
        if op == Op::And {
            r
        } else {
            q
        }
    } else {
        joined(q, r, op)
    }
}

/// `q0` combined with `r0` under `op`.
///
/// A node around a single sub-query is dropped, a query the other implies is
/// absorbed, nodes of the same operator merge, and grams common to two nodes
/// of the opposite operator are pulled out in front of both.
pub open spec fn combined(q0: Tree, r0: Tree, op: Op) -> Tree
    decreases weight(q0) + weight(r0),
    via combined_shrinks
{
    let q = unwrapped(q0);
    let r = unwrapped(r0);
    if entails(q, r) || entails(r, q) || !must_factor(q, r, op) {
        combined_flat(q, r, op)
    } else {
        let shared = common(q.grams, r.grams);
        if shared.len() == 0 {
            Tree { op, grams: Seq::empty(), sub: seq![q, r] }
        } else {
            let inner = combined(
                Tree { op: q.op, grams: own(q.grams, r.grams), sub: q.sub },
                Tree { op: r.op, grams: own(r.grams, q.grams), sub: r.sub },
                op,
            );
            combined_flat(gram_node(inverted(op), shared), unwrapped(inner), inverted(op))
        }
    }
}

/// Only the sub-queries matter for their weight.
proof fn lemma_sub_weight(q: Tree, r: Tree, n: int)
    requires
        q.sub == r.sub,
        0 <= n <= q.sub.len(),
    ensures
        sub_weight(q, n) == sub_weight(r, n),
    decreases n,
{
    if n > 0 {
        lemma_sub_weight(q, r, n - 1);
    }
}

proof fn lemma_unwrapped_weight(q: Tree)
    ensures
        weight(unwrapped(q)) <= weight(q),
{
    if q.grams.len() == 0 && q.sub.len() == 1 {
        assert(sub_weight(q, 1) == sub_weight(q, 0) + weight(q.sub[0]));
    }
}

proof fn lemma_split_len(a: Seq<Seq<u8>>, b: Seq<Seq<u8>>)
    ensures
        common(a, b).len() + own(a, b).len() == a.len(),
    decreases a.len(),
{
    if a.len() > 0 {
        lemma_split_len(a.drop_last(), b);
    }
}

proof fn lemma_own_weight(q: Tree, grams: Seq<Seq<u8>>)
    ensures
        weight(Tree { op: q.op, grams, sub: q.sub }) + q.grams.len() == weight(q) + grams.len(),
{
    lemma_sub_weight(q, Tree { op: q.op, grams, sub: q.sub }, q.sub.len() as int);
}

#[via_fn]
proof fn combined_shrinks(q0: Tree, r0: Tree, op: Op) {
    lemma_combined_shrinks(q0, r0);
}

proof fn lemma_combined_shrinks(q0: Tree, r0: Tree)
    ensures
        ({
            let q = unwrapped(q0);
            let r = unwrapped(r0);
            common(q.grams, r.grams).len() > 0 ==> weight(
                Tree { op: q.op, grams: own(q.grams, r.grams), sub: q.sub },
            ) + weight(Tree { op: r.op, grams: own(r.grams, q.grams), sub: r.sub }) < weight(q0)
                + weight(r0)
        }),
{
    let q = unwrapped(q0);
    let r = unwrapped(r0);
    lemma_unwrapped_weight(q0);
    lemma_unwrapped_weight(r0);
    lemma_split_len(q.grams, r.grams);
    lemma_split_len(r.grams, q.grams);
    lemma_own_weight(q, own(q.grams, r.grams));
    lemma_own_weight(r, own(r.grams, q.grams));
}

/// Membership in the two halves of a split.
pub proof fn lemma_split(a: Seq<Seq<u8>>, b: Seq<Seq<u8>>, x: Seq<u8>)
    ensures
        common(a, b).contains(x) <==> a.contains(x) && b.contains(x),
        own(a, b).contains(x) <==> a.contains(x) && !b.contains(x),
    decreases a.len(),
{
    if a.len() > 0 {
        let head = a.drop_last();
        lemma_split(head, b, x);
        assert(a.contains(x) <==> head.contains(x) || a.last() == x) by {
            if a.contains(x) {
                let n = choose|n: int| 0 <= n < a.len() && a[n] == x;
                if n < head.len() {
                    assert(head[n] == x);
                }
            }
            if head.contains(x) {
                let n = choose|n: int| 0 <= n < head.len() && head[n] == x;
                assert(a[n] == x);
            }
            if a.last() == x {
                assert(a[a.len() - 1] == x);
            }
        }
        lemma_push_contains(common(head, b), a.last(), x);
        lemma_push_contains(own(head, b), a.last(), x);
    }
}

pub proof fn lemma_push_contains(s: Seq<Seq<u8>>, y: Seq<u8>, x: Seq<u8>)
    ensures
        s.push(y).contains(x) <==> s.contains(x) || x == y,
{
    let p = s.push(y);
    if p.contains(x) {
        let n = choose|n: int| 0 <= n < p.len() && p[n] == x;
        if n < s.len() {
            assert(s[n] == x);
        }
    }
    if s.contains(x) {
        let n = choose|n: int| 0 <= n < s.len() && s[n] == x;
        assert(p[n] == x);
    }
    if x == y {
        assert(p[s.len() as int] == x);
    }
}

proof fn lemma_split_strict(a: Seq<Seq<u8>>, b: Seq<Seq<u8>>)
    requires
        strictly_ascending(Order::Prefix, a),
    ensures
        strictly_ascending(Order::Prefix, common(a, b)),
        strictly_ascending(Order::Prefix, own(a, b)),
    decreases a.len(),
{
    if a.len() > 0 {
        let head = a.drop_last();
        assert(strictly_ascending(Order::Prefix, head)) by {
            assert forall|i: int, j: int| 0 <= i < j < head.len() implies before(
                Order::Prefix,
                #[trigger] head[i],
                #[trigger] head[j],
            ) by {
                assert(before(Order::Prefix, a[i], a[j]));
            }
        }
        lemma_split_strict(head, b);
        lemma_grow(head, common(head, b), a, b, true);
        lemma_grow(head, own(head, b), a, b, false);
    }
}

proof fn lemma_grow(
    head: Seq<Seq<u8>>,
    part: Seq<Seq<u8>>,
    a: Seq<Seq<u8>>,
    b: Seq<Seq<u8>>,
    shared: bool,
)
    requires
        a.len() > 0,
        head == a.drop_last(),
        strictly_ascending(Order::Prefix, a),
        strictly_ascending(Order::Prefix, part),
        part == if shared {
            common(head, b)
        } else {
            own(head, b)
        },
    ensures
        strictly_ascending(Order::Prefix, part.push(a.last())),
{
    let p = part.push(a.last());
    assert forall|i: int, j: int| 0 <= i < j < p.len() implies before(
        Order::Prefix,
        #[trigger] p[i],
        #[trigger] p[j],
    ) by {
        if j == part.len() {
            lemma_split(head, b, part[i]);
            assert(part.contains(part[i]));
            let n = choose|n: int| 0 <= n < head.len() && head[n] == part[i];
            assert(before(Order::Prefix, a[n], a[a.len() - 1]));
        } else {
            assert(before(Order::Prefix, part[i], part[j]));
        }
    }
}

/// A conjunction of grams that is seen to imply a query does imply it.
proof fn lemma_grams_entail(t: Seq<Seq<u8>>, q: Tree, present: spec_fn(Seq<u8>) -> bool)
    requires
        grams_entail(t, q),
        forall|g: Seq<u8>| #[trigger] t.contains(g) ==> present(g),
    ensures
        holds(q, present),
    decreases q,
{
    match q.op {
        Op::Or => {
            if overlaps(t, q.grams) {
                let x = choose|x: Seq<u8>| #[trigger] t.contains(x) && q.grams.contains(x);
                assert(q.grams.contains(x) && present(x));
            } else {
                let i = choose|i: int|
                    0 <= i < q.sub.len() && grams_entail(t, #[trigger] q.sub[i]);
                lemma_grams_entail(t, q.sub[i], present);
            }
        },
        Op::And => {
            assert forall|i: int| 0 <= i < q.sub.len() implies holds(
                #[trigger] q.sub[i],
                present,
            ) by {
                lemma_grams_entail(t, q.sub[i], present);
            }
        },
        _ => {},
    }
}

/// Implication is sound: every document matching `q` also matches a query
/// that `q` is seen to imply.
pub proof fn law_implies_sound(q: Tree, r: Tree, present: spec_fn(Seq<u8>) -> bool)
    requires
        tree_wf(q),
        entails(q, r),
        holds(q, present),
    ensures
        holds(r, present),
    decreases q,
{
    if q.op == Op::Nothing || r.op == Op::All {
    } else if q.op == Op::All || r.op == Op::Nothing {
    } else if q.op == Op::And || is_atom(q) {
        assert forall|g: Seq<u8>| #[trigger] q.grams.contains(g) implies present(g) by {
            if q.op == Op::Or {
                let h = choose|h: Seq<u8>| #[trigger] q.grams.contains(h) && present(h);
                let m = choose|m: int| 0 <= m < q.grams.len() && q.grams[m] == h;
                let n = choose|n: int| 0 <= n < q.grams.len() && q.grams[n] == g;
                assert(m == 0 && n == 0);
            }
        }
        lemma_grams_entail(q.grams, r, present);
    } else if exists|g: Seq<u8>| #[trigger] q.grams.contains(g) && present(g) {
        let g = choose|g: Seq<u8>| #[trigger] q.grams.contains(g) && present(g);
        assert forall|h: Seq<u8>| #[trigger] seq![g].contains(h) implies present(h) by {
            assert(h == g);
        }
        lemma_grams_entail(seq![g], r, present);
    } else {
        let i = choose|i: int| 0 <= i < q.sub.len() && holds(#[trigger] q.sub[i], present);
        law_implies_sound(q.sub[i], r, present);
    }
}

/// What a connective makes of its two operands.
pub open spec fn connects(op: Op, a: bool, b: bool) -> bool {
    if op == Op::And {
        a && b
    } else {
        a || b
    }
}

proof fn lemma_unwrapped(q: Tree, present: spec_fn(Seq<u8>) -> bool)
    requires
        tree_wf(q),
    ensures
        tree_wf(unwrapped(q)),
        holds(unwrapped(q), present) == holds(q, present),
{
    if q.grams.len() == 0 && q.sub.len() == 1 {
        assert(tree_wf(q.sub[0]));
        if holds(q.sub[0], present) {
            assert(forall|i: int| 0 <= i < q.sub.len() ==> #[trigger] q.sub[i] == q.sub[0]);
        }
    }
}

proof fn lemma_united(a: Seq<Seq<u8>>, b: Seq<Seq<u8>>)
    ensures
        strictly_ascending(Order::Prefix, united(a, b, Order::Prefix)),
        forall|x: Seq<u8>| #[trigger]
            united(a, b, Order::Prefix).contains(x) <==> a.contains(x) || b.contains(x),
{
    lemma_cleaned(Order::Prefix, a + b);
    assert forall|x: Seq<u8>| #[trigger]
        united(a, b, Order::Prefix).contains(x) <==> a.contains(x) || b.contains(x) by {
        assert(united(a, b, Order::Prefix).contains(x) <==> (a + b).contains(x));
        if (a + b).contains(x) {
            let n = choose|n: int| 0 <= n < (a + b).len() && (a + b)[n] == x;
            if n < a.len() {
                assert(a[n] == x);
            } else {
                assert(b[n - a.len()] == x);
            }
        }
        if a.contains(x) {
            let n = choose|n: int| 0 <= n < a.len() && a[n] == x;
            assert((a + b)[n] == x);
        }
        if b.contains(x) {
            let n = choose|n: int| 0 <= n < b.len() && b[n] == x;
            assert((a + b)[a.len() + n] == x);
        }
    }
}

/// A single gram means the same under either connective.
proof fn lemma_atom_holds(q: Tree, present: spec_fn(Seq<u8>) -> bool)
    requires
        tree_wf(q),
        is_atom(q),
    ensures
        holds(q, present) == present(q.grams[0]),
        forall|x: Seq<u8>| #[trigger] q.grams.contains(x) <==> x == q.grams[0],
        q.op == Op::And || q.op == Op::Or,
{
    assert(q.grams.contains(q.grams[0]));
    assert forall|x: Seq<u8>| #[trigger] q.grams.contains(x) <==> x == q.grams[0] by {
        if q.grams.contains(x) {
            let n = choose|n: int| 0 <= n < q.grams.len() && q.grams[n] == x;
            assert(n == 0);
        }
    }
}

proof fn lemma_absorbed(host: Tree, guest: Tree, op: Op, present: spec_fn(Seq<u8>) -> bool)
    requires
        tree_wf(host),
        tree_wf(guest),
        op == Op::And || op == Op::Or,
        host.op == op,
        guest.op == op || is_atom(guest),
    ensures
        tree_wf(absorbed(host, guest)),
        holds(absorbed(host, guest), present) == connects(
            op,
            holds(host, present),
            holds(guest, present),
        ),
{
    let r = absorbed(host, guest);
    lemma_united(host.grams, guest.grams);
    assert forall|i: int| 0 <= i < r.sub.len() implies tree_wf(#[trigger] r.sub[i]) by {
        if i < host.sub.len() {
            assert(r.sub[i] == host.sub[i]);
        } else {
            assert(r.sub[i] == guest.sub[i - host.sub.len()]);
        }
    }
    if is_atom(guest) {
        lemma_atom_holds(guest, present);
        assert(r.sub =~= host.sub);
    }
    let hs = host.sub;
    let gs = guest.sub;
    assert forall|i: int| 0 <= i < hs.len() implies #[trigger] r.sub[i] == hs[i] by {}
    assert forall|i: int| 0 <= i < gs.len() implies gs[i] == #[trigger] r.sub[hs.len() + i] by {}
    if op == Op::And {
        if holds(r, present) {
            assert forall|g: Seq<u8>| #[trigger] host.grams.contains(g) implies present(g) by {
                assert(r.grams.contains(g));
            }
            assert forall|g: Seq<u8>| #[trigger] guest.grams.contains(g) implies present(g) by {
                assert(r.grams.contains(g));
            }
            assert forall|i: int| 0 <= i < hs.len() implies holds(#[trigger] hs[i], present) by {
                assert(holds(r.sub[i], present));
            }
            assert forall|i: int| 0 <= i < gs.len() implies holds(#[trigger] gs[i], present) by {
                assert(holds(r.sub[hs.len() + i], present));
            }
        }
        if holds(host, present) && holds(guest, present) {
            assert forall|i: int| 0 <= i < r.sub.len() implies holds(
                #[trigger] r.sub[i],
                present,
            ) by {
                if i >= hs.len() {
                    assert(r.sub[i] == gs[i - hs.len()]);
                }
            }
        }
    } else {
        if holds(r, present) {
            if exists|g: Seq<u8>| #[trigger] r.grams.contains(g) && present(g) {
                let g = choose|g: Seq<u8>| #[trigger] r.grams.contains(g) && present(g);
                assert(host.grams.contains(g) || guest.grams.contains(g));
            } else {
                let i = choose|i: int| 0 <= i < r.sub.len() && holds(#[trigger] r.sub[i], present);
                if i < hs.len() {
                    assert(holds(hs[i], present));
                } else {
                    assert(holds(gs[i - hs.len()], present));
                }
            }
        }
        if holds(host, present) {
            if exists|g: Seq<u8>| #[trigger] host.grams.contains(g) && present(g) {
                let g = choose|g: Seq<u8>| #[trigger] host.grams.contains(g) && present(g);
                assert(r.grams.contains(g));
            } else {
                let i = choose|i: int| 0 <= i < hs.len() && holds(#[trigger] hs[i], present);
                assert(holds(r.sub[i], present));
            }
        }
        if holds(guest, present) {
            if is_atom(guest) {
                assert(r.grams.contains(guest.grams[0]));
            } else if exists|g: Seq<u8>| #[trigger] guest.grams.contains(g) && present(g) {
                let g = choose|g: Seq<u8>| #[trigger] guest.grams.contains(g) && present(g);
                assert(r.grams.contains(g));
            } else {
                let i = choose|i: int| 0 <= i < gs.len() && holds(#[trigger] gs[i], present);
                assert(holds(r.sub[hs.len() + i], present));
            }
        }
    }
}

proof fn lemma_attached(host: Tree, child: Tree, op: Op, present: spec_fn(Seq<u8>) -> bool)
    requires
        tree_wf(host),
        tree_wf(child),
        op == Op::And || op == Op::Or,
        host.op == op,
    ensures
        tree_wf(attached(host, child)),
        holds(attached(host, child), present) == connects(
            op,
            holds(host, present),
            holds(child, present),
        ),
{
    let r = attached(host, child);
    let n = host.sub.len();
    assert(r.sub[n as int] == child);
    assert forall|i: int| 0 <= i < n implies #[trigger] r.sub[i] == host.sub[i] by {}
    if op == Op::And {
        if holds(r, present) {
            assert forall|g: Seq<u8>| #[trigger] host.grams.contains(g) implies present(g) by {
                assert(r.grams.contains(g));
            }
            assert(holds(r.sub[n as int], present));
            assert forall|i: int| 0 <= i < n implies holds(#[trigger] host.sub[i], present) by {
                assert(holds(r.sub[i], present));
            }
        }
        if holds(host, present) && holds(child, present) {
            assert forall|g: Seq<u8>| #[trigger] r.grams.contains(g) implies present(g) by {
                assert(host.grams.contains(g));
            }
            assert forall|i: int| 0 <= i < r.sub.len() implies holds(
                #[trigger] r.sub[i],
                present,
            ) by {
                if i < n {
                    assert(holds(host.sub[i], present));
                }
            }
        }
    } else {
        if exists|g: Seq<u8>| #[trigger] r.grams.contains(g) && present(g) {
            let g = choose|g: Seq<u8>| #[trigger] r.grams.contains(g) && present(g);
            assert(host.grams.contains(g));
        }
        if exists|g: Seq<u8>| #[trigger] host.grams.contains(g) && present(g) {
            let g = choose|g: Seq<u8>| #[trigger] host.grams.contains(g) && present(g);
            assert(r.grams.contains(g));
        }
        if holds(r, present) && !(exists|g: Seq<u8>| #[trigger] r.grams.contains(g) && present(g)) {
            let i = choose|i: int| 0 <= i < r.sub.len() && holds(#[trigger] r.sub[i], present);
            if i < n {
                assert(holds(host.sub[i], present));
            }
        }
        if holds(host, present) && !(exists|g: Seq<u8>| #[trigger]
            host.grams.contains(g) && present(g)) {
            let i = choose|i: int| 0 <= i < n && holds(#[trigger] host.sub[i], present);
            assert(holds(r.sub[i], present));
        }
        if holds(child, present) {
            assert(holds(r.sub[n as int], present));
        }
    }
}

proof fn lemma_combined_flat(q: Tree, r: Tree, op: Op, present: spec_fn(Seq<u8>) -> bool)
    requires
        tree_wf(q),
        tree_wf(r),
        op == Op::And || op == Op::Or,
        entails(q, r) || entails(r, q) || !must_factor(q, r, op),
    ensures
        tree_wf(combined_flat(q, r, op)),
        holds(combined_flat(q, r, op), present) == connects(
            op,
            holds(q, present),
            holds(r, present),
        ),
{
    if entails(q, r) {
        if holds(q, present) {
            law_implies_sound(q, r, present);
        }
    } else if entails(r, q) {
        if holds(r, present) {
            law_implies_sound(r, q, present);
        }
    } else if q.op == op && (r.op == op || is_atom(r)) {
        lemma_absorbed(q, r, op, present);
    } else if r.op == op && is_atom(q) {
        lemma_absorbed(r, q, op, present);
    } else if is_atom(q) && is_atom(r) {
        lemma_atom_holds(q, present);
        lemma_atom_holds(r, present);
        let host = Tree { op, grams: q.grams, sub: q.sub };
        lemma_atom_holds(host, present);
        lemma_absorbed(host, r, op, present);
        assert(host.sub + r.sub =~= q.sub);
    } else if q.op == op {
        lemma_attached(q, r, op, present);
    } else {
        lemma_attached(r, q, op, present);
    }
}

/// A node whose grams split into two parts is the part pulled out, joined with
/// the rest.
proof fn lemma_pulled_out(
    q: Tree,
    part: Seq<Seq<u8>>,
    rest: Seq<Seq<u8>>,
    present: spec_fn(Seq<u8>) -> bool,
)
    requires
        q.op == Op::And || q.op == Op::Or,
        forall|x: Seq<u8>| #[trigger]
            q.grams.contains(x) <==> part.contains(x) || rest.contains(x),
    ensures
        holds(q, present) == connects(
            q.op,
            holds(gram_node(q.op, part), present),
            holds(Tree { op: q.op, grams: rest, sub: q.sub }, present),
        ),
{
    let a = gram_node(q.op, part);
    let b = Tree { op: q.op, grams: rest, sub: q.sub };
    assert(a.grams == part && b.grams == rest);
    if q.op == Op::And {
        if holds(q, present) {
            assert forall|g: Seq<u8>| #[trigger] a.grams.contains(g) implies present(g) by {
                assert(q.grams.contains(g));
            }
            assert forall|g: Seq<u8>| #[trigger] b.grams.contains(g) implies present(g) by {
                assert(q.grams.contains(g));
            }
            assert(holds(a, present));
            assert(holds(b, present));
        }
        if holds(a, present) && holds(b, present) {
            assert forall|g: Seq<u8>| #[trigger] q.grams.contains(g) implies present(g) by {
                assert(a.grams.contains(g) || b.grams.contains(g));
            }
            assert forall|i: int| 0 <= i < q.sub.len() implies holds(
                #[trigger] q.sub[i],
                present,
            ) by {
                assert(holds(b.sub[i], present));
            }
        }
    } else {
        if holds(q, present) {
            if exists|g: Seq<u8>| #[trigger] q.grams.contains(g) && present(g) {
                let g = choose|g: Seq<u8>| #[trigger] q.grams.contains(g) && present(g);
                assert(a.grams.contains(g) || b.grams.contains(g));
            } else {
                let i = choose|i: int| 0 <= i < q.sub.len() && holds(#[trigger] q.sub[i], present);
                assert(holds(b.sub[i], present));
            }
        }
        if holds(a, present) {
            let g = choose|g: Seq<u8>| #[trigger] a.grams.contains(g) && present(g);
            assert(q.grams.contains(g));
        }
        if holds(b, present) {
            if exists|g: Seq<u8>| #[trigger] b.grams.contains(g) && present(g) {
                let g = choose|g: Seq<u8>| #[trigger] b.grams.contains(g) && present(g);
                assert(q.grams.contains(g));
            } else {
                let i = choose|i: int| 0 <= i < b.sub.len() && holds(#[trigger] b.sub[i], present);
                assert(holds(q.sub[i], present));
            }
        }
    }
}

/// Pulling the shared grams out in front of both nodes keeps their meaning.
proof fn lemma_factored(q: Tree, r: Tree, op: Op, inner: Tree, present: spec_fn(Seq<u8>) -> bool)
    requires
        tree_wf(q),
        tree_wf(r),
        op == Op::And || op == Op::Or,
        q.op == inverted(op),
        r.op == inverted(op),
        tree_wf(inner),
        holds(inner, present) == connects(
            op,
            holds(Tree { op: q.op, grams: own(q.grams, r.grams), sub: q.sub }, present),
            holds(Tree { op: r.op, grams: own(r.grams, q.grams), sub: r.sub }, present),
        ),
    ensures
        ({
            let c = combined_flat(
                gram_node(inverted(op), common(q.grams, r.grams)),
                unwrapped(inner),
                inverted(op),
            );
            tree_wf(c) && holds(c, present) == connects(
                op,
                holds(q, present),
                holds(r, present),
            )
        }),
{
    let shared = common(q.grams, r.grams);
    let (qo, ro) = (own(q.grams, r.grams), own(r.grams, q.grams));
    let front = gram_node(inverted(op), shared);
    assert(tree_wf(front)) by {
        lemma_split_strict(q.grams, r.grams);
    }
    assert forall|x: Seq<u8>| #[trigger] q.grams.contains(x) <==> shared.contains(x)
        || qo.contains(x) by {
        lemma_split(q.grams, r.grams, x);
    }
    assert forall|x: Seq<u8>| #[trigger] r.grams.contains(x) <==> shared.contains(x)
        || ro.contains(x) by {
        lemma_split(q.grams, r.grams, x);
        lemma_split(r.grams, q.grams, x);
    }
    lemma_pulled_out(q, shared, qo, present);
    lemma_pulled_out(r, shared, ro, present);
    lemma_unwrapped(inner, present);
    lemma_combined_flat(front, unwrapped(inner), inverted(op), present);
}

proof fn lemma_under_new_node(q: Tree, r: Tree, op: Op, present: spec_fn(Seq<u8>) -> bool)
    requires
        tree_wf(q),
        tree_wf(r),
        op == Op::And || op == Op::Or,
    ensures
        ({
            let c = Tree { op, grams: Seq::empty(), sub: seq![q, r] };
            tree_wf(c) && holds(c, present) == connects(
                op,
                holds(q, present),
                holds(r, present),
            )
        }),
{
    let c = Tree { op, grams: Seq::empty(), sub: seq![q, r] };
    assert(c.sub[0] == q && c.sub[1] == r);
    if op == Op::And {
        if holds(c, present) {
            assert(holds(c.sub[0], present) && holds(c.sub[1], present));
        }
    } else {
        if holds(q, present) {
            assert(holds(c.sub[0], present));
        }
        if holds(r, present) {
            assert(holds(c.sub[1], present));
        }
    }
}

/// The algebra is exact: the combination of two queries holds of a document
/// exactly where the connective of the two does.
pub proof fn law_and_or_exact(q0: Tree, r0: Tree, op: Op, present: spec_fn(Seq<u8>) -> bool)
    requires
        tree_wf(q0),
        tree_wf(r0),
        op == Op::And || op == Op::Or,
    ensures
        tree_wf(combined(q0, r0, op)),
        holds(combined(q0, r0, op), present) == connects(
            op,
            holds(q0, present),
            holds(r0, present),
        ),
    decreases weight(q0) + weight(r0),
{
    let q = unwrapped(q0);
    let r = unwrapped(r0);
    lemma_unwrapped(q0, present);
    lemma_unwrapped(r0, present);
    if entails(q, r) || entails(r, q) || !must_factor(q, r, op) {
        lemma_combined_flat(q, r, op, present);
    } else {
        assert(q.op == inverted(op) && r.op == inverted(op));
        if common(q.grams, r.grams).len() == 0 {
            lemma_under_new_node(q, r, op, present);
        } else {
            lemma_combined_shrinks(q0, r0);
            let q1 = Tree { op: q.op, grams: own(q.grams, r.grams), sub: q.sub };
            let r1 = Tree { op: r.op, grams: own(r.grams, q.grams), sub: r.sub };
            lemma_split_strict(q.grams, r.grams);
            lemma_split_strict(r.grams, q.grams);
            law_and_or_exact(q1, r1, op, present);
            lemma_factored(q, r, op, combined(q1, r1, op), present);
        }
    }
}

impl Query {
    /// The always-true query.
    pub fn all() -> (q: Query)
        ensures
            q.wf(),
            q.tree() == leaf(Op::All),
    {
        Query::leaf(Op::All)
    }

    /// The always-false query.
    pub fn none() -> (q: Query)
        ensures
            q.wf(),
            q.tree() == leaf(Op::Nothing),
    {
        Query::leaf(Op::Nothing)
    }

    /// An `op` node carrying exactly the gram set `grams`.
    pub fn grams(op: Op, grams: StringSet) -> (q: Query)
        requires
            grams.wf(),
            strictly_ascending(Order::Prefix, grams@),
            op == Op::And || op == Op::Or,
        ensures
            q.wf(),
            q.tree() == gram_node(op, grams@),
    {
        let q = Query { op, grams, sub: Vec::new() };
        assert(q.tree().sub =~= Seq::<Tree>::empty());
        q
    }

    fn leaf(op: Op) -> (q: Query)
        ensures
            q.wf(),
            q.tree() == leaf(op),
    {
        let q = Query { op, grams: StringSet::new(), sub: Vec::new() };
        assert(q.tree().sub =~= Seq::<Tree>::empty());
        q
    }

    /// A query with the same tree.
    pub fn duplicate(&self) -> (q: Query)
        requires
            self.wf(),
        ensures
            q.wf(),
            q.tree() == self.tree(),
        decreases self,
    {
        let mut sub: Vec<Query> = Vec::new();
        let mut i: usize = 0;
        while i < self.sub.len()
            invariant
                self.wf(),
                i <= self.sub@.len(),
                sub@.len() == i,
                forall|k: int|
                    0 <= k < i ==> (#[trigger] sub@[k]).wf() && sub@[k].tree()
                        == self.sub@[k].tree(),
            decreases self.sub@.len() - i,
        {
            let child = self.sub[i].duplicate();
            sub.push(child);
            i = i + 1;
        }
        let q = Query { op: self.op, grams: self.grams.duplicate(), sub };
        assert(q.tree().sub =~= self.tree().sub);
        q
    }

    /// Whether this node is a single gram, the atom that merges into any
    /// same-op parent without nesting.
    fn is_atom(&self) -> (atom: bool)
        ensures
            atom == is_atom(self.tree()),
    {
        self.grams.len() == 1 && self.sub.len() == 0
    }

    /// Total grams in this query tree: the cost cloning it replicates.
    pub fn weight(&self) -> (n: usize)
        ensures
            n == clamp(weight(self.tree()) as int),
        decreases self,
    {
        let mut n: usize = 0;
        let mut i: usize = 0;
        while i < self.sub.len()
            invariant
                i <= self.sub@.len(),
                n == clamp(sub_weight(self.tree(), i as int) as int),
            decreases self.sub@.len() - i,
        {
            let child: usize = self.sub[i].weight();
            assert(self.tree().sub[i as int] == self.sub@[i as int].tree());
            n = add_to_max(n, child);
            i = i + 1;
        }
        add_to_max(self.grams.len(), n)
    }

    /// `self AND other`, simplified.
    pub fn and(self, other: Query) -> (q: Query)
        requires
            self.wf(),
            other.wf(),
        ensures
            q.wf(),
            q.tree() == combined(self.tree(), other.tree(), Op::And),
    {
        self.and_or(other, Op::And)
    }

    /// `self OR other`, simplified.
    pub fn or(self, other: Query) -> (q: Query)
        requires
            self.wf(),
            other.wf(),
        ensures
            q.wf(),
            q.tree() == combined(self.tree(), other.tree(), Op::Or),
    {
        self.and_or(other, Op::Or)
    }

    /// `self` combined with `other` under `op`, working to avoid building
    /// needlessly complicated structures. Reuses both operands' storage; no
    /// node is cloned.
    pub fn and_or(self, other: Query, op: Op) -> (c: Query)
        requires
            self.wf(),
            other.wf(),
            op == Op::And || op == Op::Or,
        ensures
            c.wf(),
            c.tree() == combined(self.tree(), other.tree(), op),
        decreases weight(self.tree()) + weight(other.tree()), 1nat,
    {
        let ghost (q0, r0) = (self.tree(), other.tree());
        let q = unwrap_single(self);
        let r = unwrap_single(other);
        proof {
            lemma_unwrapped_weight(q0);
            lemma_unwrapped_weight(r0);
        }
        // q implies r: under AND keep the stronger q, under OR keep the weaker r.
        if q.implies(&r) {
            return match op {
                Op::And => q,
                _ => r,
            };
        }
        if r.implies(&q) {
            return match op {
                Op::And => r,
                _ => q,
            };
        }
        if q.op != op && r.op != op && !(q.is_atom() && r.is_atom()) {
            return factor(q, r, op);
        }
        merge(q, r, op)
    }

    /// Whether `self` implies `other`: every document matching `self` also
    /// matches `other`. False negatives are allowed (they only cost size).
    pub fn implies(&self, other: &Query) -> (implied: bool)
        requires
            self.wf(),
            other.wf(),
        ensures
            implied == entails(self.tree(), other.tree()),
        decreases self, 1nat,
    {
        if self.op == Op::Nothing || other.op == Op::All {
            return true;
        }
        if self.op == Op::All || other.op == Op::Nothing {
            return false;
        }
        self.implies_inner(other)
    }

    fn implies_inner(&self, other: &Query) -> (implied: bool)
        requires
            self.wf(),
            other.wf(),
            self.op == Op::And || self.op == Op::Or,
            other.op == Op::And || other.op == Op::Or,
        ensures
            implied == entails(self.tree(), other.tree()),
        decreases self, 0nat,
    {
        proof {
            lemma_strict_is_ascending(Order::Prefix, self.grams@);
        }
        if self.op == Op::And || self.is_atom() {
            return grams_imply(&self.grams, other);
        }
        // An OR implies `other` when every alternative does: each sub-query,
        // and each gram on its own.
        let mut i: usize = 0;
        while i < self.sub.len()
            invariant
                i <= self.sub@.len(),
                self.wf(),
                other.wf(),
                self.op == Op::Or,
                !is_atom(self.tree()),
                other.op == Op::And || other.op == Op::Or,
                forall|k: int|
                    0 <= k < i ==> entails(#[trigger] self.tree().sub[k], other.tree()),
            decreases self.sub@.len() - i,
        {
            assert(self.tree().sub[i as int] == self.sub@[i as int].tree());
            if !self.sub[i].implies(other) {
                return false;
            }
            i = i + 1;
        }
        let grams = self.grams.as_slice();
        let mut j: usize = 0;
        while j < grams.len()
            invariant
                j <= grams@.len(),
                texts(grams@) == self.tree().grams,
                other.wf(),
                self.op == Op::Or,
                !is_atom(self.tree()),
                other.op == Op::And || other.op == Op::Or,
                forall|k: int|
                    0 <= k < j ==> grams_entail(seq![#[trigger] self.tree().grams[k]], other.tree()),
            decreases grams@.len() - j,
        {
            assert(self.tree().grams[j as int] == grams@[j as int]@);
            if !gram_implies(&grams[j], other) {
                assert(self.tree().grams.contains(grams@[j as int]@));
                return false;
            }
            j = j + 1;
        }
        true
    }
}

/// A node `op{single sub}` carries no information beyond that sub-query.
fn unwrap_single(q: Query) -> (u: Query)
    requires
        q.wf(),
    ensures
        u.wf(),
        u.tree() == unwrapped(q.tree()),
{
    let mut q = q;
    if q.grams.is_empty() && q.sub.len() == 1 {
        proof {
            assert(q.tree().sub[0] == q.sub@[0].tree());
            assert(q.sub@[0].wf());
        }
        if let Some(only) = q.sub.pop() {
            return only;
        }
    }
    q
}

/// Merge two non-implying queries under `op`: fold a matching operator into
/// its partner, pair two atoms, or attach to an operator node.
fn merge(q: Query, r: Query, op: Op) -> (c: Query)
    requires
        q.wf(),
        r.wf(),
        op == Op::And || op == Op::Or,
        !must_factor(q.tree(), r.tree(), op),
    ensures
        c.wf(),
        c.tree() == joined(q.tree(), r.tree(), op),
{
    let q_atom = q.is_atom();
    let r_atom = r.is_atom();
    if q.op == op && (r.op == op || r_atom) {
        return absorb(q, r);
    }
    if r.op == op && q_atom {
        return absorb(r, q);
    }
    if q_atom && r_atom {
        return pair(q, &r, op);
    }
    if q.op == op {
        return attach(q, r);
    }
    attach(r, q)
}

/// Fold `guest`'s grams and sub-queries into `host`, which already uses the op.
fn absorb(host: Query, guest: Query) -> (c: Query)
    requires
        host.wf(),
        guest.wf(),
        host.op == Op::And || host.op == Op::Or,
    ensures
        c.wf(),
        c.tree() == absorbed(host.tree(), guest.tree()),
{
    let mut sub = host.sub;
    let mut more = guest.sub;
    let ghost (hs, gs) = (sub@, more@);
    sub.append(&mut more);
    let c = Query { op: host.op, grams: host.grams.union(&guest.grams, Order::Prefix), sub };
    proof {
        lemma_united(host.grams@, guest.grams@);
        assert(c.sub@ == hs + gs);
        assert forall|i: int| 0 <= i < c.sub@.len() implies (#[trigger] c.sub@[i]).wf() by {
            if i < hs.len() {
                assert(c.sub@[i] == hs[i]);
                assert(host.sub@[i].wf());
            } else {
                assert(c.sub@[i] == gs[i - hs.len()]);
                assert(guest.sub@[i - hs.len()].wf());
            }
        }
        assert(c.tree().sub =~= host.tree().sub + guest.tree().sub);
        lemma_node_wf(c);
    }
    c
}

/// A node with well-formed parts is well formed.
proof fn lemma_node_wf(q: Query)
    requires
        q.grams.wf(),
        strictly_ascending(Order::Prefix, q.grams@),
        q.op == Op::And || q.op == Op::Or,
        forall|i: int| 0 <= i < q.sub@.len() ==> (#[trigger] q.sub@[i]).wf(),
    ensures
        q.wf(),
{
    assert forall|i: int| 0 <= i < q.tree().sub.len() implies tree_wf(#[trigger] q.tree().sub[i]) by {
        assert(q.sub@[i].wf());
    }
}

/// Combine two single-gram atoms into one `op` node holding both grams.
fn pair(q: Query, r: &Query, op: Op) -> (c: Query)
    requires
        q.wf(),
        r.wf(),
        op == Op::And || op == Op::Or,
    ensures
        c.wf(),
        c.tree() == (Tree {
            op,
            grams: united(q.tree().grams, r.tree().grams, Order::Prefix),
            sub: q.tree().sub,
        }),
{
    let c = Query { op, grams: q.grams.union(&r.grams, Order::Prefix), sub: q.sub };
    proof {
        lemma_united(q.grams@, r.grams@);
        lemma_node_wf(c);
        assert(c.tree().sub =~= q.tree().sub);
    }
    c
}

/// Attach `child` as a sub-query of operator node `host`.
fn attach(host: Query, child: Query) -> (c: Query)
    requires
        host.wf(),
        child.wf(),
        host.op == Op::And || host.op == Op::Or,
    ensures
        c.wf(),
        c.tree() == attached(host.tree(), child.tree()),
{
    let mut sub = host.sub;
    let ghost hs = sub@;
    sub.push(child);
    let c = Query { op: host.op, grams: host.grams, sub };
    proof {
        assert forall|i: int| 0 <= i < c.sub@.len() implies (#[trigger] c.sub@[i]).wf() by {
            if i < hs.len() {
                assert(c.sub@[i] == hs[i]);
                assert(host.sub@[i].wf());
            }
        }
        lemma_node_wf(c);
        assert(c.tree().sub =~= host.tree().sub.push(child.tree()));
    }
    c
}

/// Build an AND of ORs (or OR of ANDs) for `q` and `r`, first pulling any
/// grams common to both out into the opposite operator.
fn factor(q: Query, r: Query, op: Op) -> (c: Query)
    requires
        q.wf(),
        r.wf(),
        op == Op::And || op == Op::Or,
        must_factor(q.tree(), r.tree(), op),
        !entails(q.tree(), r.tree()),
        !entails(r.tree(), q.tree()),
    ensures
        c.wf(),
        ({
            let shared = common(q.tree().grams, r.tree().grams);
            c.tree() == if shared.len() == 0 {
                Tree { op, grams: Seq::empty(), sub: seq![q.tree(), r.tree()] }
            } else {
                combined_flat(
                    gram_node(inverted(op), shared),
                    unwrapped(
                        combined(
                            Tree {
                                op: q.op,
                                grams: own(q.tree().grams, r.tree().grams),
                                sub: q.tree().sub,
                            },
                            Tree {
                                op: r.op,
                                grams: own(r.tree().grams, q.tree().grams),
                                sub: r.tree().sub,
                            },
                            op,
                        ),
                    ),
                    inverted(op),
                )
            }
        }),
    decreases weight(q.tree()) + weight(r.tree()), 0nat,
{
    let ghost (qt, rt) = (q.tree(), r.tree());
    let mut qg = q.grams;
    let mut rg = r.grams;
    let shared = split_common(&mut qg, &mut rg);
    let q1 = Query { op: q.op, grams: qg, sub: q.sub };
    let r1 = Query { op: r.op, grams: rg, sub: r.sub };
    proof {
        assert(q1.tree().sub =~= qt.sub);
        assert(r1.tree().sub =~= rt.sub);
        lemma_node_wf(q1);
        lemma_node_wf(r1);
    }
    if shared.is_empty() {
        let mut sub: Vec<Query> = Vec::new();
        proof {
            lemma_split_len(qt.grams, rt.grams);
            lemma_split_len(rt.grams, qt.grams);
            lemma_common_empty(qt.grams, rt.grams);
        }
        sub.push(q1);
        sub.push(r1);
        let c = Query { op, grams: StringSet::new(), sub };
        proof {
            lemma_node_wf(c);
            assert(c.tree().sub =~= seq![qt, rt]);
        }
        return c;
    }
    proof {
        lemma_split_len(qt.grams, rt.grams);
        lemma_split_len(rt.grams, qt.grams);
        lemma_own_weight(qt, own(qt.grams, rt.grams));
        lemma_own_weight(rt, own(rt.grams, qt.grams));
    }
    let inner = q1.and_or(r1, op);
    let other = invert(op);
    front_with(Query::grams(other, shared), unwrap_single(inner), other)
}

proof fn lemma_common_empty(a: Seq<Seq<u8>>, b: Seq<Seq<u8>>)
    requires
        common(a, b).len() == 0,
    ensures
        own(a, b) == a,
        own(b, a) == b,
{
    assert forall|x: Seq<u8>| !(a.contains(x) && #[trigger] b.contains(x)) by {
        lemma_split(a, b, x);
    }
    lemma_own_all(a, b);
    lemma_own_all(b, a);
}

proof fn lemma_own_all(a: Seq<Seq<u8>>, b: Seq<Seq<u8>>)
    requires
        forall|x: Seq<u8>| !(a.contains(x) && #[trigger] b.contains(x)),
    ensures
        own(a, b) == a,
    decreases a.len(),
{
    if a.len() > 0 {
        let head = a.drop_last();
        assert forall|x: Seq<u8>| !(head.contains(x) && #[trigger] b.contains(x)) by {
            if head.contains(x) {
                let n = choose|n: int| 0 <= n < head.len() && head[n] == x;
                assert(a[n] == x);
            }
        }
        lemma_own_all(head, b);
        assert(a[a.len() - 1] == a.last());
        assert(a.contains(a.last()));
        assert(a =~= head.push(a.last()));
    } else {
        assert(own(a, b) =~= a);
    }
}

/// Join the grams in front with the rest under their operator.
fn front_with(front: Query, rest: Query, op: Op) -> (c: Query)
    requires
        front.wf(),
        rest.wf(),
        front.op == op,
        op == Op::And || op == Op::Or,
    ensures
        c.wf(),
        c.tree() == combined_flat(front.tree(), rest.tree(), op),
{
    if front.implies(&rest) {
        return match op {
            Op::And => front,
            _ => rest,
        };
    }
    if rest.implies(&front) {
        return match op {
            Op::And => rest,
            _ => front,
        };
    }
    merge(front, rest, op)
}

/// Remove the grams present in both sets and return them, leaving each input
/// with only its own grams. Both are [`Order::Prefix`]-cleaned, so one merge
/// walk finds the intersection.
fn split_common(q: &mut StringSet, r: &mut StringSet) -> (shared: StringSet)
    requires
        old(q).wf(),
        old(r).wf(),
        strictly_ascending(Order::Prefix, old(q)@),
        strictly_ascending(Order::Prefix, old(r)@),
    ensures
        final(q).wf(),
        final(r).wf(),
        shared.wf(),
        shared@ == common(old(q)@, old(r)@),
        final(q)@ == own(old(q)@, old(r)@),
        final(r)@ == own(old(r)@, old(q)@),
        strictly_ascending(Order::Prefix, shared@),
        strictly_ascending(Order::Prefix, final(q)@),
        strictly_ascending(Order::Prefix, final(r)@),
{
    let ghost (qv, rv) = (q@, r@);
    let mut q_own = StringSet::new();
    let mut r_own = StringSet::new();
    let mut shared = StringSet::new();
    let (mut qi, mut ri): (usize, usize) = (0, 0);
    proof {
        assert(qv.take(0) =~= Seq::<Seq<u8>>::empty());
        assert(rv.take(0) =~= Seq::<Seq<u8>>::empty());
        lemma_split_strict(qv, rv);
        lemma_split_strict(rv, qv);
    }
    while qi < q.len() || ri < r.len()
        invariant
            q@ == qv,
            r@ == rv,
            qi <= qv.len(),
            ri <= rv.len(),
            strictly_ascending(Order::Prefix, qv),
            strictly_ascending(Order::Prefix, rv),
            q_own.wf(),
            r_own.wf(),
            shared.wf(),
            q_own@ == own(qv.take(qi as int), rv),
            r_own@ == own(rv.take(ri as int), qv),
            shared@ == common(qv.take(qi as int), rv),
            forall|m: int, k: int|
                0 <= m < ri && qi <= k < qv.len() ==> before(
                    Order::Prefix,
                    #[trigger] rv[m],
                    #[trigger] qv[k],
                ),
            forall|m: int, k: int|
                0 <= m < qi && ri <= k < rv.len() ==> before(
                    Order::Prefix,
                    #[trigger] qv[m],
                    #[trigger] rv[k],
                ),
        decreases qv.len() - qi + rv.len() - ri,
    {
        if qi < q.len() && ri < r.len() && same_bytes(q.at(qi).as_bytes(), r.at(ri).as_bytes()) {
            proof {
                let x = qv[qi as int];
                assert(x == rv[ri as int]);
                assert(rv.contains(x));
                assert(qv.contains(x));
                assert(qv.take(qi + 1).drop_last() =~= qv.take(qi as int));
                assert(rv.take(ri + 1).drop_last() =~= rv.take(ri as int));
                assert forall|m: int, k: int|
                    0 <= m < ri + 1 && qi + 1 <= k < qv.len() implies before(
                    Order::Prefix,
                    #[trigger] rv[m],
                    #[trigger] qv[k],
                ) by {
                    if m == ri {
                        assert(before(Order::Prefix, qv[qi as int], qv[k]));
                    }
                }
                assert forall|m: int, k: int|
                    0 <= m < qi + 1 && ri + 1 <= k < rv.len() implies before(
                    Order::Prefix,
                    #[trigger] qv[m],
                    #[trigger] rv[k],
                ) by {
                    if m == qi {
                        assert(before(Order::Prefix, rv[ri as int], rv[k]));
                    }
                }
            }
            shared.push(q.at(qi).duplicate());
            qi = qi + 1;
            ri = ri + 1;
        } else if ri == r.len() || (qi < q.len() && is_before(Order::Prefix, q.at(qi), r.at(ri))) {
            proof {
                lemma_walk(qv, rv, qi as int, ri as int);
            }
            q_own.push(q.at(qi).duplicate());
            qi = qi + 1;
        } else {
            proof {
                if qi < qv.len() {
                    lemma_before_total(Order::Prefix, qv[qi as int], rv[ri as int]);
                }
                lemma_walk(rv, qv, ri as int, qi as int);
            }
            r_own.push(r.at(ri).duplicate());
            ri = ri + 1;
        }
    }
    proof {
        assert(qv.take(qi as int) =~= qv);
        assert(rv.take(ri as int) =~= rv);
    }
    *q = q_own;
    *r = r_own;
    shared
}

/// A string below everything left on the other side is not there at all.
proof fn lemma_walk(qv: Seq<Seq<u8>>, rv: Seq<Seq<u8>>, qi: int, ri: int)
    requires
        0 <= qi < qv.len(),
        0 <= ri <= rv.len(),
        strictly_ascending(Order::Prefix, qv),
        strictly_ascending(Order::Prefix, rv),
        ri < rv.len() ==> before(Order::Prefix, qv[qi], rv[ri]),
        forall|m: int, k: int|
            0 <= m < ri && qi <= k < qv.len() ==> before(
                Order::Prefix,
                #[trigger] rv[m],
                #[trigger] qv[k],
            ),
    ensures
        !rv.contains(qv[qi]),
        qv.take(qi + 1).drop_last() == qv.take(qi),
        qv.take(qi + 1).last() == qv[qi],
        forall|k: int| ri <= k < rv.len() ==> before(Order::Prefix, qv[qi], #[trigger] rv[k]),
{
    assert(qv.take(qi + 1).drop_last() =~= qv.take(qi));
    assert forall|k: int| ri <= k < rv.len() implies before(
        Order::Prefix,
        qv[qi],
        #[trigger] rv[k],
    ) by {
        if k > ri {
            assert(before(Order::Prefix, rv[ri], rv[k]));
            lemma_before_transitive(Order::Prefix, qv[qi], rv[ri], rv[k]);
        }
    }
    if rv.contains(qv[qi]) {
        let n = choose|n: int| 0 <= n < rv.len() && rv[n] == qv[qi];
        lemma_before_total(Order::Prefix, qv[qi], qv[qi]);
        if n < ri {
            assert(before(Order::Prefix, rv[n], qv[qi]));
        } else {
            assert(before(Order::Prefix, qv[qi], rv[n]));
        }
    }
}

fn invert(op: Op) -> (other: Op)
    ensures
        other == inverted(op),
{
    match op {
        Op::And => Op::Or,
        _ => Op::And,
    }
}

/// Whether the conjunction of grams `t` implies query `q`.
pub fn grams_imply(t: &StringSet, q: &Query) -> (implied: bool)
    requires
        ascending(Order::Prefix, t@),
        q.wf(),
    ensures
        implied == grams_entail(t@, q.tree()),
    decreases q,
{
    proof {
        lemma_strict_is_ascending(Order::Prefix, q.grams@);
    }
    match q.op {
        Op::Or => {
            let mut i: usize = 0;
            while i < q.sub.len()
                invariant
                    i <= q.sub@.len(),
                    q.wf(),
                    q.op == Op::Or,
                    ascending(Order::Prefix, t@),
                    forall|k: int|
                        0 <= k < i ==> !grams_entail(t@, #[trigger] q.tree().sub[k]),
                decreases q.sub@.len() - i,
            {
                assert(q.tree().sub[i as int] == q.sub@[i as int].tree());
                if grams_imply(t, &q.sub[i]) {
                    return true;
                }
                i = i + 1;
            }
            any_gram_in(t, &q.grams)
        },
        Op::And => {
            let mut i: usize = 0;
            while i < q.sub.len()
                invariant
                    i <= q.sub@.len(),
                    q.wf(),
                    q.op == Op::And,
                    ascending(Order::Prefix, t@),
                    forall|k: int| 0 <= k < i ==> grams_entail(t@, #[trigger] q.tree().sub[k]),
                decreases q.sub@.len() - i,
            {
                assert(q.tree().sub[i as int] == q.sub@[i as int].tree());
                if !grams_imply(t, &q.sub[i]) {
                    return false;
                }
                i = i + 1;
            }
            q.grams.is_subset_of(t.as_slice())
        },
        _ => false,
    }
}

/// Whether any single gram of `t` already appears in `set`.
fn any_gram_in(t: &StringSet, set: &StringSet) -> (found: bool)
    requires
        ascending(Order::Prefix, set@),
    ensures
        found == overlaps(t@, set@),
{
    let mut i: usize = 0;
    while i < t.len()
        invariant
            i <= t@.len(),
            ascending(Order::Prefix, set@),
            forall|k: int| 0 <= k < i ==> !set@.contains(#[trigger] t@[k]),
        decreases t@.len() - i,
    {
        let one = StringSet::of(t.at(i).duplicate());
        assert(one@[0] == t@[i as int]);
        if one.is_subset_of(set.as_slice()) {
            assert(one@.contains(t@[i as int]));
            assert(t@.contains(t@[i as int]));
            return true;
        }
        assert forall|x: Seq<u8>| #[trigger] one@.contains(x) implies x == t@[i as int] by {}
        i = i + 1;
    }
    false
}

/// Whether the presence of the single gram `g` implies query `q`.
fn gram_implies(g: &Gram, q: &Query) -> (implied: bool)
    requires
        q.wf(),
    ensures
        implied == grams_entail(seq![g@], q.tree()),
{
    let one = StringSet::of(g.duplicate());
    grams_imply(&one, q)
}

} // verus!
