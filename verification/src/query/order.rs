//! The two orders the analysis sorts byte strings in.
//!
//! Prefix order is ordinary lexicographic, grouping shared leading bytes.
//! Suffix order compares from the last byte back, grouping shared trailing
//! bytes. Both are total on distinct byte strings, and both compare the bytes
//! an edge truncation keeps before any byte it drops, so truncating a sorted
//! set leaves it sorted.

use std::cmp::Ordering;
use vstd::prelude::*;

use crate::query::gram::Gram;

verus! {

/// Sort order for string sets.
#[derive(Debug, Clone, Copy, PartialEq, Eq, Structural)]
pub enum Order {
    /// Ordinary lexicographic order; groups shared leading bytes.
    Prefix,
    /// Compared from the last byte back; groups shared trailing bytes.
    Suffix,
}

/// What is known about a set's order.
#[derive(Debug, Clone, Copy, PartialEq, Eq, Structural)]
pub enum Shape {
    /// Nothing known.
    Loose,
    /// Sorted in this order, duplicates possible.
    Sorted(Order),
    /// Sorted in this order with no duplicates.
    Clean(Order),
}

impl Default for Shape {
    fn default() -> (shape: Shape)
        ensures
            shape == Shape::Loose,
    {
        Shape::Loose
    }
}

impl Shape {
    /// Whether the items are known to be sorted in `order`.
    pub fn sorted_in(self, order: Order) -> (known: bool)
        ensures
            known == (self == Shape::Sorted(order) || self == Shape::Clean(order)),
    {
        match self {
            Shape::Loose => false,
            Shape::Sorted(o) => o == order,
            Shape::Clean(o) => o == order,
        }
    }

    /// Whether the items are known to be sorted in `order` and unique.
    pub fn clean_in(self, order: Order) -> (known: bool)
        ensures
            known == (self == Shape::Clean(order)),
    {
        match self {
            Shape::Clean(o) => o == order,
            _ => false,
        }
    }

    /// Whether the items are known to be unique, whatever the order.
    pub fn is_clean(self) -> (known: bool)
        ensures
            known == (self is Clean),
    {
        matches!(self, Shape::Clean(_))
    }
}

/// `s` in the direction `order` reads it.
pub open spec fn reading(order: Order, s: Seq<u8>) -> Seq<u8> {
    match order {
        Order::Prefix => s,
        Order::Suffix => s.reverse(),
    }
}

/// `a` and `b` agree on their first `k` bytes, and `a` then ends or continues
/// with the lower byte.
pub open spec fn parts_below(a: Seq<u8>, b: Seq<u8>, k: int) -> bool {
    &&& 0 <= k <= a.len()
    &&& k < b.len()
    &&& forall|i: int| 0 <= i < k ==> a[i] == b[i]
    &&& k == a.len() || a[k] < b[k]
}

/// Lexicographic order.
pub open spec fn lex_below(a: Seq<u8>, b: Seq<u8>) -> bool {
    exists|k: int| parts_below(a, b, k)
}

/// `a` comes strictly before `b` in `order`.
pub open spec fn before(order: Order, a: Seq<u8>, b: Seq<u8>) -> bool {
    lex_below(reading(order, a), reading(order, b))
}

/// No string comes before an earlier one.
pub open spec fn ascending(order: Order, s: Seq<Seq<u8>>) -> bool {
    forall|i: int, j: int| 0 <= i < j < s.len() ==> !before(order, #[trigger] s[j], #[trigger] s[i])
}

/// Every string comes strictly before all later ones.
pub open spec fn strictly_ascending(order: Order, s: Seq<Seq<u8>>) -> bool {
    forall|i: int, j: int| 0 <= i < j < s.len() ==> before(order, #[trigger] s[i], #[trigger] s[j])
}

/// The two sequences hold the same strings.
pub open spec fn same_members(a: Seq<Seq<u8>>, b: Seq<Seq<u8>>) -> bool {
    forall|x: Seq<u8>| #[trigger] a.contains(x) <==> b.contains(x)
}

/// The members of `s`, once each, in `order`.
pub open spec fn cleaned(order: Order, s: Seq<Seq<u8>>) -> Seq<Seq<u8>> {
    choose|r: Seq<Seq<u8>>| strictly_ascending(order, r) && same_members(r, s)
}

pub proof fn lemma_lex_irreflexive(a: Seq<u8>)
    ensures
        !lex_below(a, a),
{
}

pub proof fn lemma_lex_asymmetric(a: Seq<u8>, b: Seq<u8>)
    requires
        lex_below(a, b),
    ensures
        !lex_below(b, a),
{
    let k = choose|k: int| parts_below(a, b, k);
    if lex_below(b, a) {
        let m = choose|m: int| parts_below(b, a, m);
        if k < m {
            assert(a[k] == b[k]);
        } else if m < k {
            assert(a[m] == b[m]);
        }
    }
}

pub proof fn lemma_lex_transitive(a: Seq<u8>, b: Seq<u8>, c: Seq<u8>)
    requires
        lex_below(a, b),
        lex_below(b, c),
    ensures
        lex_below(a, c),
{
    let k = choose|k: int| parts_below(a, b, k);
    let m = choose|m: int| parts_below(b, c, m);
    if k <= m {
        assert(parts_below(a, c, k));
    } else {
        assert(parts_below(a, c, m));
    }
}

proof fn lemma_lex_connected_from(a: Seq<u8>, b: Seq<u8>, k: int)
    requires
        0 <= k <= a.len(),
        k <= b.len(),
        forall|i: int| 0 <= i < k ==> a[i] == b[i],
    ensures
        a == b || lex_below(a, b) || lex_below(b, a),
    decreases a.len() - k,
{
    if k == a.len() && k == b.len() {
        assert(a =~= b);
    } else if k == a.len() {
        assert(parts_below(a, b, k));
    } else if k == b.len() {
        assert(parts_below(b, a, k));
    } else if a[k] < b[k] {
        assert(parts_below(a, b, k));
    } else if b[k] < a[k] {
        assert(parts_below(b, a, k));
    } else {
        lemma_lex_connected_from(a, b, k + 1);
    }
}

/// Each order is a strict total order: irreflexive, asymmetric and connected.
pub proof fn lemma_before_total(order: Order, a: Seq<u8>, b: Seq<u8>)
    ensures
        !before(order, a, a),
        before(order, a, b) ==> !before(order, b, a),
        a == b || before(order, a, b) || before(order, b, a),
{
    let ra = reading(order, a);
    let rb = reading(order, b);
    lemma_lex_irreflexive(ra);
    if lex_below(ra, rb) {
        lemma_lex_asymmetric(ra, rb);
    }
    lemma_lex_connected_from(ra, rb, 0);
    if ra == rb && order == Order::Suffix {
        assert(ra.reverse() =~= a);
        assert(rb.reverse() =~= b);
    }
}

/// Each order is transitive.
pub proof fn lemma_before_transitive(order: Order, a: Seq<u8>, b: Seq<u8>, c: Seq<u8>)
    requires
        before(order, a, b),
        before(order, b, c),
    ensures
        before(order, a, c),
{
    lemma_lex_transitive(reading(order, a), reading(order, b), reading(order, c));
}

proof fn lemma_lex_behind(c: Seq<u8>, a: Seq<u8>, b: Seq<u8>)
    ensures
        lex_below(c + a, c + b) <==> lex_below(a, b),
{
    let n = c.len() as int;
    if lex_below(a, b) {
        let k = choose|k: int| parts_below(a, b, k);
        assert(parts_below(c + a, c + b, n + k));
    }
    if lex_below(c + a, c + b) {
        let k = choose|k: int| parts_below(c + a, c + b, k);
        assert(k >= n) by {
            if k < n {
                assert((c + a)[k] == (c + b)[k]);
            }
        }
        assert forall|i: int| 0 <= i < k - n implies a[i] == b[i] by {
            assert((c + a)[n + i] == (c + b)[n + i]);
        }
        assert(parts_below(a, b, k - n));
    }
}

/// An order compares from its own end on: what two strings share there does not
/// count, the first byte that tells them apart there decides, and a string comes
/// after the shorter one that it extends.
pub proof fn law_order_compares_from_its_end(
    c: Seq<u8>,
    a: Seq<u8>,
    b: Seq<u8>,
    x: u8,
    y: u8,
)
    ensures
        before(Order::Prefix, c + a, c + b) <==> before(Order::Prefix, a, b),
        before(Order::Suffix, a + c, b + c) <==> before(Order::Suffix, a, b),
        x < y ==> before(Order::Prefix, seq![x] + a, seq![y] + b),
        x < y ==> before(Order::Suffix, a + seq![x], b + seq![y]),
        a.len() > 0 ==> before(Order::Prefix, c, c + a) && before(Order::Suffix, c, a + c),
{
    lemma_lex_behind(c, a, b);
    lemma_lex_behind(c.reverse(), a.reverse(), b.reverse());
    assert((a + c).reverse() =~= c.reverse() + a.reverse());
    assert((b + c).reverse() =~= c.reverse() + b.reverse());
    if x < y {
        assert(parts_below(seq![x] + a, seq![y] + b, 0));
        assert((a + seq![x]).reverse()[0] == x);
        assert((b + seq![y]).reverse()[0] == y);
        assert(parts_below((a + seq![x]).reverse(), (b + seq![y]).reverse(), 0));
    }
    if a.len() > 0 {
        assert(parts_below(c, c + a, c.len() as int));
        assert(parts_below(c.reverse(), (a + c).reverse(), c.len() as int));
    }
}

pub proof fn lemma_strict_is_ascending(order: Order, s: Seq<Seq<u8>>)
    requires
        strictly_ascending(order, s),
    ensures
        ascending(order, s),
        s.no_duplicates(),
{
    assert forall|i: int, j: int| 0 <= i < j < s.len() implies !before(
        order,
        #[trigger] s[j],
        #[trigger] s[i],
    ) by {
        lemma_before_total(order, s[i], s[j]);
    }
    assert forall|i: int, j: int| 0 <= i < s.len() && 0 <= j < s.len() && i != j implies s[i]
        != s[j] by {
        lemma_before_total(order, s[i], s[j]);
        if i < j {
            assert(before(order, s[i], s[j]));
        } else {
            assert(before(order, s[j], s[i]));
        }
    }
}

/// A strictly ascending sequence is determined by its members.
pub proof fn lemma_strict_unique(order: Order, a: Seq<Seq<u8>>, b: Seq<Seq<u8>>)
    requires
        strictly_ascending(order, a),
        strictly_ascending(order, b),
        same_members(a, b),
    ensures
        a == b,
    decreases a.len(),
{
    if a.len() == 0 {
        if b.len() > 0 {
            assert(b.contains(b[0]));
            assert(a.contains(b[0]));
        }
        assert(a =~= b);
    } else {
        assert(a.contains(a[0]));
        assert(b.contains(a[0]));
        assert(b.contains(b[0]));
        assert(a.contains(b[0]));
        let j = choose|j: int| 0 <= j < b.len() && b[j] == a[0];
        let i = choose|i: int| 0 <= i < a.len() && a[i] == b[0];
        lemma_before_total(order, a[0], b[0]);
        if j > 0 {
            assert(before(order, b[0], b[j]));
            if i > 0 {
                assert(before(order, a[0], a[i]));
            }
        }
        assert(a[0] == b[0]);
        let at = a.drop_first();
        let bt = b.drop_first();
        lemma_strict_is_ascending(order, a);
        lemma_strict_is_ascending(order, b);
        assert(strictly_ascending(order, at));
        assert(strictly_ascending(order, bt));
        assert forall|x: Seq<u8>| #[trigger] at.contains(x) <==> bt.contains(x) by {
            if at.contains(x) {
                let n = choose|n: int| 0 <= n < at.len() && at[n] == x;
                assert(a[n + 1] == x);
                assert(a.contains(x));
                assert(b.contains(x));
                let m = choose|m: int| 0 <= m < b.len() && b[m] == x;
                assert(m != 0);
                assert(bt[m - 1] == x);
            }
            if bt.contains(x) {
                let n = choose|n: int| 0 <= n < bt.len() && bt[n] == x;
                assert(b[n + 1] == x);
                assert(b.contains(x));
                assert(a.contains(x));
                let m = choose|m: int| 0 <= m < a.len() && a[m] == x;
                assert(m != 0);
                assert(at[m - 1] == x);
            }
        }
        lemma_strict_unique(order, at, bt);
        assert(a =~= seq![a[0]] + at);
        assert(b =~= seq![b[0]] + bt);
    }
}

proof fn lemma_insert(order: Order, s: Seq<Seq<u8>>, x: Seq<u8>) -> (r: Seq<Seq<u8>>)
    requires
        strictly_ascending(order, s),
    ensures
        strictly_ascending(order, r),
        same_members(r, s.push(x)),
    decreases s.len(),
{
    if s.len() == 0 {
        assert(s.push(x) =~= seq![x]);
        seq![x]
    } else {
        lemma_before_total(order, s.last(), x);
        if s.last() == x {
            assert forall|y: Seq<u8>| #[trigger] s.contains(y) <==> s.push(x).contains(y) by {
                if s.contains(y) {
                    let n = choose|n: int| 0 <= n < s.len() && s[n] == y;
                    assert(s.push(x)[n] == y);
                }
                if s.push(x).contains(y) {
                    let n = choose|n: int| 0 <= n < s.push(x).len() && s.push(x)[n] == y;
                    if n == s.len() {
                        assert(s[s.len() - 1] == y);
                    } else {
                        assert(s[n] == y);
                    }
                }
            }
            s
        } else if before(order, s.last(), x) {
            let r = s.push(x);
            assert forall|i: int, j: int| 0 <= i < j < r.len() implies before(
                order,
                #[trigger] r[i],
                #[trigger] r[j],
            ) by {
                if j == s.len() {
                    if i < s.len() - 1 {
                        assert(before(order, s[i], s[s.len() - 1]));
                        lemma_before_transitive(order, s[i], s.last(), x);
                    }
                } else {
                    assert(before(order, s[i], s[j]));
                }
            }
            r
        } else {
            let head = lemma_insert(order, s.drop_last(), x);
            let r = head.push(s.last());
            let p = s.drop_last().push(x);
            assert forall|i: int, j: int| 0 <= i < j < r.len() implies before(
                order,
                #[trigger] r[i],
                #[trigger] r[j],
            ) by {
                if j == head.len() {
                    assert(head.contains(head[i]));
                    assert(p.contains(head[i]));
                    let n = choose|n: int| 0 <= n < p.len() && p[n] == head[i];
                    if n < s.len() - 1 {
                        assert(before(order, s[n], s[s.len() - 1]));
                    }
                } else {
                    assert(before(order, head[i], head[j]));
                }
            }
            assert forall|y: Seq<u8>| #[trigger] r.contains(y) <==> s.push(x).contains(y) by {
                if r.contains(y) {
                    let n = choose|n: int| 0 <= n < r.len() && r[n] == y;
                    if n == head.len() {
                        assert(s.push(x)[s.len() - 1] == y);
                    } else {
                        assert(head.contains(y));
                        assert(p.contains(y));
                        let m = choose|m: int| 0 <= m < p.len() && p[m] == y;
                        if m == s.len() - 1 {
                            assert(s.push(x)[s.len() as int] == y);
                        } else {
                            assert(s.push(x)[m] == y);
                        }
                    }
                }
                if s.push(x).contains(y) {
                    let n = choose|n: int| 0 <= n < s.push(x).len() && s.push(x)[n] == y;
                    if n == s.len() - 1 {
                        assert(r[head.len() as int] == y);
                    } else {
                        if n == s.len() {
                            assert(p[s.len() - 1] == y);
                        } else {
                            assert(p[n] == y);
                        }
                        assert(p.contains(y));
                        assert(head.contains(y));
                        let m = choose|m: int| 0 <= m < head.len() && head[m] == y;
                        assert(r[m] == y);
                    }
                }
            }
            r
        }
    }
}

proof fn lemma_cleaned_witness(order: Order, s: Seq<Seq<u8>>) -> (r: Seq<Seq<u8>>)
    ensures
        strictly_ascending(order, r),
        same_members(r, s),
    decreases s.len(),
{
    if s.len() == 0 {
        s
    } else {
        let head = lemma_cleaned_witness(order, s.drop_last());
        let r = lemma_insert(order, head, s.last());
        assert forall|y: Seq<u8>| #[trigger] r.contains(y) <==> s.contains(y) by {
            let p = head.push(s.last());
            assert(r.contains(y) <==> p.contains(y));
            if p.contains(y) {
                let n = choose|n: int| 0 <= n < p.len() && p[n] == y;
                if n == head.len() {
                    assert(s[s.len() - 1] == y);
                } else {
                    assert(head.contains(y));
                    assert(s.drop_last().contains(y));
                    let m = choose|m: int| 0 <= m < s.len() - 1 && s.drop_last()[m] == y;
                    assert(s[m] == y);
                }
            }
            if s.contains(y) {
                let n = choose|n: int| 0 <= n < s.len() && s[n] == y;
                if n == s.len() - 1 {
                    assert(p[head.len() as int] == y);
                } else {
                    assert(s.drop_last()[n] == y);
                    assert(s.drop_last().contains(y));
                    assert(head.contains(y));
                    let m = choose|m: int| 0 <= m < head.len() && head[m] == y;
                    assert(p[m] == y);
                }
            }
        }
        r
    }
}

/// Cleaning keeps the members and sorts them strictly.
pub proof fn lemma_cleaned(order: Order, s: Seq<Seq<u8>>)
    ensures
        strictly_ascending(order, cleaned(order, s)),
        same_members(cleaned(order, s), s),
        cleaned(order, s).no_duplicates(),
{
    let r = lemma_cleaned_witness(order, s);
    lemma_strict_is_ascending(order, cleaned(order, s));
}

/// Cleaning is the only strictly sorted arrangement of the members.
pub proof fn lemma_cleaned_is(order: Order, r: Seq<Seq<u8>>, s: Seq<Seq<u8>>)
    requires
        strictly_ascending(order, r),
        same_members(r, s),
    ensures
        r == cleaned(order, s),
{
    lemma_cleaned(order, s);
    assert(same_members(r, cleaned(order, s)));
    lemma_strict_unique(order, r, cleaned(order, s));
}

/// Whether `a` sorts before `b`, read from the first byte on, then by length.
fn below_from_head(a: &[u8], b: &[u8]) -> (lower: bool)
    ensures
        lower == lex_below(a@, b@),
{
    let mut i: usize = 0;
    while i < a.len() && i < b.len()
        invariant
            i <= a@.len(),
            i <= b@.len(),
            forall|k: int| 0 <= k < i ==> a@[k] == b@[k],
        decreases a@.len() - i,
    {
        if a[i] < b[i] {
            assert(parts_below(a@, b@, i as int));
            return true;
        }
        if a[i] > b[i] {
            assert(parts_below(b@, a@, i as int));
            proof {
                lemma_lex_asymmetric(b@, a@);
            }
            return false;
        }
        i = i + 1;
    }
    if i < b.len() {
        assert(parts_below(a@, b@, i as int));
        true
    } else {
        assert(forall|k: int| !parts_below(a@, b@, k));
        false
    }
}

/// Whether `a` sorts before `b`, read from the last byte back, then by
/// length: the order that groups shared suffixes adjacently for
/// deduplication and truncation.
fn below_from_tail(a: &[u8], b: &[u8]) -> (lower: bool)
    ensures
        lower == lex_below(a@.reverse(), b@.reverse()),
{
    let ghost ra = a@.reverse();
    let ghost rb = b@.reverse();
    let mut ia: usize = a.len();
    let mut ib: usize = b.len();
    while ia > 0 && ib > 0
        invariant
            ia <= a@.len(),
            ib <= b@.len(),
            a@.len() - ia == b@.len() - ib,
            ra == a@.reverse(),
            rb == b@.reverse(),
            forall|k: int| 0 <= k < a@.len() - ia ==> ra[k] == rb[k],
        decreases ia,
    {
        ia = ia - 1;
        ib = ib - 1;
        let ghost k = a@.len() - ia - 1;
        assert(ra[k] == a@[ia as int]);
        assert(rb[k] == b@[ib as int]);
        if a[ia] < b[ib] {
            assert(parts_below(ra, rb, k));
            return true;
        }
        if a[ia] > b[ib] {
            assert(parts_below(rb, ra, k));
            proof {
                lemma_lex_asymmetric(rb, ra);
            }
            return false;
        }
    }
    if a.len() < b.len() {
        assert(parts_below(ra, rb, a@.len() as int));
        true
    } else {
        assert(forall|k: int| !parts_below(ra, rb, k));
        false
    }
}

/// Whether `a` comes strictly before `b` in `order`.
pub fn is_before(order: Order, a: &Gram, b: &Gram) -> (lower: bool)
    ensures
        lower == before(order, a@, b@),
{
    match order {
        Order::Prefix => below_from_head(a.as_bytes(), b.as_bytes()),
        Order::Suffix => below_from_tail(a.as_bytes(), b.as_bytes()),
    }
}

/// Compare two strings in `order`.
pub fn cmp_in(order: Order, a: &Gram, b: &Gram) -> (o: Ordering)
    ensures
        o == Ordering::Less <==> before(order, a@, b@),
        o == Ordering::Equal <==> a@ == b@,
        o == Ordering::Greater <==> before(order, b@, a@),
{
    proof {
        lemma_before_total(order, a@, b@);
        lemma_before_total(order, b@, a@);
    }
    if is_before(order, a, b) {
        Ordering::Less
    } else if is_before(order, b, a) {
        Ordering::Greater
    } else {
        Ordering::Equal
    }
}

/// The bytes `a` and `b` have in common at the end `order` reads from.
pub open spec fn shares(order: Order, a: Seq<u8>, b: Seq<u8>, n: nat) -> bool {
    let ra = reading(order, a);
    let rb = reading(order, b);
    &&& n <= ra.len()
    &&& n <= rb.len()
    &&& forall|i: int| 0 <= i < n ==> ra[i] == rb[i]
    &&& n == ra.len() || n == rb.len() || ra[n as int] != rb[n as int]
}

/// The number of bytes `a` and `b` share at the end `order` reads from.
pub fn shared_in(order: Order, a: &Gram, b: &Gram) -> (n: usize)
    ensures
        shares(order, a@, b@, n as nat),
{
    let (x, y) = (a.as_bytes(), b.as_bytes());
    let ghost rx = reading(order, a@);
    let ghost ry = reading(order, b@);
    let mut n: usize = 0;
    while n < x.len() && n < y.len()
        invariant
            n <= x@.len(),
            n <= y@.len(),
            x@ == a@,
            y@ == b@,
            rx == reading(order, a@),
            ry == reading(order, b@),
            forall|i: int| 0 <= i < n ==> rx[i] == ry[i],
        decreases x@.len() - n,
    {
        let (i, j): (usize, usize) = match order {
            Order::Prefix => (n, n),
            Order::Suffix => (x.len() - 1 - n, y.len() - 1 - n),
        };
        assert(x@[i as int] == rx[n as int]);
        assert(y@[j as int] == ry[n as int]);
        if x[i] != y[j] {
            return n;
        }
        n = n + 1;
    }
    n
}

} // verus!
