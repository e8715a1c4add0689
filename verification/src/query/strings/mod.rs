//! A set of byte strings, the currency of the regex analysis.
//!
//! `clean` sorts in one of the two [`Order`]s and deduplicates, so later
//! passes can merge and truncate prefixes or suffixes in a single linear
//! scan.
//!
//! A set remembers the order it was last sorted in, and truncation is monotone
//! in both orders, so shortening a sorted set re-sorts nothing.

pub mod ops;

use vstd::prelude::*;

use crate::num::{add_to_max, clamp};
use crate::query::gram::{same_bytes, texts, Gram};
use crate::query::order::{
    ascending, before, cleaned, cmp_in, lemma_before_total, lemma_before_transitive, lemma_cleaned,
    lemma_cleaned_is, lemma_strict_is_ascending, lex_below, parts_below, reading, same_members,
    strictly_ascending, Order, Shape,
};

verus! {

/// Length of the shortest string, or 0 when there is none.
pub open spec fn min_len(s: Seq<Seq<u8>>) -> nat
    decreases s.len(),
{
    if s.len() == 0 {
        0
    } else if s.len() == 1 || s.last().len() < min_len(s.drop_last()) {
        s.last().len()
    } else {
        min_len(s.drop_last())
    }
}

/// Length of the longest string, or 0 when there is none.
pub open spec fn max_len(s: Seq<Seq<u8>>) -> nat
    decreases s.len(),
{
    if s.len() == 0 {
        0
    } else if s.last().len() > max_len(s.drop_last()) {
        s.last().len()
    } else {
        max_len(s.drop_last())
    }
}

/// Total bytes of all strings.
pub open spec fn byte_len(s: Seq<Seq<u8>>) -> nat
    decreases s.len(),
{
    if s.len() == 0 {
        0
    } else {
        byte_len(s.drop_last()) + s.last().len()
    }
}

/// The leading or trailing `keep` bytes of `s`, the end `order` names.
pub open spec fn cut(order: Order, s: Seq<u8>, keep: int) -> Seq<u8> {
    if s.len() <= keep {
        s
    } else {
        match order {
            Order::Prefix => s.subrange(0, keep),
            Order::Suffix => s.subrange(s.len() - keep, s.len() as int),
        }
    }
}

/// Every string cut to `keep` bytes.
pub open spec fn cut_all(order: Order, s: Seq<Seq<u8>>, keep: int) -> Seq<Seq<u8>> {
    Seq::new(s.len(), |i: int| cut(order, s[i], keep))
}

/// `tail` appended to `head` on the left of every string.
pub open spec fn each_after(head: Seq<u8>, tails: Seq<Seq<u8>>) -> Seq<Seq<u8>> {
    Seq::new(tails.len(), |i: int| head + tails[i])
}

/// Every string of `a` followed by every string of `b`, row by row.
pub open spec fn pairs(a: Seq<Seq<u8>>, b: Seq<Seq<u8>>) -> Seq<Seq<u8>>
    decreases a.len(),
{
    if a.len() == 0 {
        Seq::empty()
    } else {
        pairs(a.drop_last(), b) + each_after(a.last(), b)
    }
}

/// The cross product of two sets, cleaned in `order`.
pub open spec fn crossed(a: Seq<Seq<u8>>, b: Seq<Seq<u8>>, order: Order) -> Seq<Seq<u8>> {
    cleaned(order, pairs(a, b))
}

/// The union of two sets, cleaned in `order`.
pub open spec fn united(a: Seq<Seq<u8>>, b: Seq<Seq<u8>>, order: Order) -> Seq<Seq<u8>> {
    cleaned(order, a + b)
}

/// Every string has the same length.
pub open spec fn uniform(s: Seq<Seq<u8>>) -> bool {
    forall|i: int, j: int|
        0 <= i < s.len() && 0 <= j < s.len() ==> (#[trigger] s[i]).len() == (#[trigger] s[j]).len()
}

/// The lower-case form of an ASCII letter, other bytes unchanged.
pub open spec fn lower_byte(b: u8) -> u8 {
    if 0x41 <= b <= 0x5A {
        (b + 0x20) as u8
    } else {
        b
    }
}

/// Two bytes have one lower-case form exactly where they are the same byte or the
/// two cases of one of the 26 ASCII letters, and a lower-case form is never an
/// upper-case letter.
pub proof fn law_lower_case_joins_the_cases(b: u8, c: u8)
    ensures
        lower_byte(b) == lower_byte(c) <==> b == c || exists|i: int|
            0 <= i < 26 && #[trigger] are_cases('A' as int + i, 'a' as int + i, b, c),
        !('A' as int <= lower_byte(b) <= 'Z' as int),
{
    if lower_byte(b) == lower_byte(c) && b != c {
        let i = lower_byte(b) - 'a' as int;
        assert(are_cases('A' as int + i, 'a' as int + i, b, c));
    }
}

/// The two bytes are the two numbers, in either order.
pub open spec fn are_cases(upper: int, lower: int, b: u8, c: u8) -> bool {
    b == upper && c == lower || b == lower && c == upper
}

/// Every byte in lower case.
pub open spec fn lowered(s: Seq<u8>) -> Seq<u8> {
    Seq::new(s.len(), |i: int| lower_byte(s[i]))
}

/// Every string in lower case.
pub open spec fn lowered_all(s: Seq<Seq<u8>>) -> Seq<Seq<u8>> {
    Seq::new(s.len(), |i: int| lowered(s[i]))
}

/// The strings `keep` marks, in order.
pub open spec fn selected(s: Seq<Seq<u8>>, keep: Seq<bool>) -> Seq<Seq<u8>>
    decreases s.len(),
{
    if s.len() == 0 {
        Seq::empty()
    } else if keep[s.len() - 1] {
        selected(s.drop_last(), keep).push(s.last())
    } else {
        selected(s.drop_last(), keep)
    }
}

/// Cutting the strings to `keep` bytes leaves at most `target` of them.
pub open spec fn fits(order: Order, s: Seq<Seq<u8>>, keep: int, target: int) -> bool {
    cleaned(order, cut_all(order, s, keep)).len() <= target
}

/// The strings without those equal to their left neighbour.
pub open spec fn runs(s: Seq<Seq<u8>>) -> Seq<Seq<u8>>
    decreases s.len(),
{
    if s.len() <= 1 {
        s
    } else if s[s.len() - 1] == s[s.len() - 2] {
        runs(s.drop_last())
    } else {
        runs(s.drop_last()).push(s.last())
    }
}

pub proof fn lemma_runs(order: Order, s: Seq<Seq<u8>>)
    requires
        ascending(order, s),
    ensures
        runs(s) == cleaned(order, s),
        s.len() > 0 ==> runs(s).len() > 0 && runs(s).last() == s.last(),
        runs(s).len() <= s.len(),
{
    lemma_runs_strict(order, s);
    lemma_cleaned_is(order, runs(s), s);
}

proof fn lemma_runs_strict(order: Order, s: Seq<Seq<u8>>)
    requires
        ascending(order, s),
    ensures
        strictly_ascending(order, runs(s)),
        same_members(runs(s), s),
        s.len() > 0 ==> runs(s).len() > 0 && runs(s).last() == s.last(),
        runs(s).len() <= s.len(),
    decreases s.len(),
{
    if s.len() > 1 {
        let head = s.drop_last();
        assert(ascending(order, head));
        lemma_runs_strict(order, head);
        let r = runs(s);
        let h = runs(head);
        assert(s.last() == s[s.len() - 1]);
        if s[s.len() - 1] == s[s.len() - 2] {
            assert forall|x: Seq<u8>| #[trigger] r.contains(x) <==> s.contains(x) by {
                assert(h.contains(x) <==> head.contains(x));
                if head.contains(x) {
                    let n = choose|n: int| 0 <= n < head.len() && head[n] == x;
                    assert(s[n] == x);
                }
                if s.contains(x) {
                    let n = choose|n: int| 0 <= n < s.len() && s[n] == x;
                    if n == s.len() - 1 {
                        assert(head[s.len() - 2] == x);
                    } else {
                        assert(head[n] == x);
                    }
                }
            }
        } else {
            lemma_before_total(order, s[s.len() - 2], s[s.len() - 1]);
            assert(!before(order, s[s.len() - 1], s[s.len() - 2]));
            assert(before(order, h.last(), s.last()));
            assert forall|i: int, j: int| 0 <= i < j < r.len() implies before(
                order,
                #[trigger] r[i],
                #[trigger] r[j],
            ) by {
                if j == h.len() {
                    if i < h.len() - 1 {
                        assert(before(order, h[i], h[h.len() - 1]));
                        lemma_before_transitive(order, h[i], h.last(), s.last());
                    }
                } else {
                    assert(before(order, h[i], h[j]));
                }
            }
            assert forall|x: Seq<u8>| #[trigger] r.contains(x) <==> s.contains(x) by {
                assert(h.contains(x) <==> head.contains(x));
                if r.contains(x) {
                    let n = choose|n: int| 0 <= n < r.len() && r[n] == x;
                    if n == h.len() {
                        assert(s[s.len() - 1] == x);
                    } else {
                        assert(h[n] == x);
                        assert(h.contains(x));
                        let m = choose|m: int| 0 <= m < head.len() && head[m] == x;
                        assert(s[m] == x);
                    }
                }
                if s.contains(x) {
                    let n = choose|n: int| 0 <= n < s.len() && s[n] == x;
                    if n == s.len() - 1 {
                        assert(r[h.len() as int] == x);
                    } else {
                        assert(head[n] == x);
                        assert(head.contains(x));
                        let m = choose|m: int| 0 <= m < h.len() && h[m] == x;
                        assert(r[m] == x);
                    }
                }
            }
        }
    }
}

/// The head of a longer reading sorts as the whole does.
proof fn lemma_cut_reading(order: Order, s: Seq<u8>, keep: int)
    requires
        keep >= 0,
    ensures
        reading(order, cut(order, s, keep)) == reading(order, s).subrange(
            0,
            if s.len() <= keep { s.len() as int } else { keep },
        ),
{
    assert(reading(order, cut(order, s, keep)) =~= reading(order, s).subrange(
        0,
        if s.len() <= keep { s.len() as int } else { keep },
    ));
}

/// Truncation is monotone in both orders.
pub proof fn lemma_cut_monotone(order: Order, a: Seq<u8>, b: Seq<u8>, keep: int)
    requires
        keep >= 0,
        !before(order, b, a),
    ensures
        !before(order, cut(order, b, keep), cut(order, a, keep)),
{
    lemma_cut_reading(order, a, keep);
    lemma_cut_reading(order, b, keep);
    let (ra, rb) = (reading(order, a), reading(order, b));
    let (ca, cb) = (reading(order, cut(order, a, keep)), reading(order, cut(order, b, keep)));
    if lex_below(cb, ca) {
        let k = choose|k: int| parts_below(cb, ca, k);
        assert(parts_below(rb, ra, k)) by {
            assert forall|i: int| 0 <= i < k implies rb[i] == ra[i] by {
                assert(cb[i] == ca[i]);
            }
        }
    }
}

/// Truncating a sorted set leaves it sorted.
pub proof fn lemma_cut_ascending(order: Order, s: Seq<Seq<u8>>, keep: int)
    requires
        keep >= 0,
        ascending(order, s),
    ensures
        ascending(order, cut_all(order, s, keep)),
{
    let c = cut_all(order, s, keep);
    assert forall|i: int, j: int| 0 <= i < j < c.len() implies !before(
        order,
        #[trigger] c[j],
        #[trigger] c[i],
    ) by {
        assert(!before(order, s[j], s[i]));
        lemma_cut_monotone(order, s[i], s[j], keep);
    }
}

/// Membership of a cross product.
pub proof fn lemma_pairs(a: Seq<Seq<u8>>, b: Seq<Seq<u8>>)
    ensures
        forall|x: Seq<u8>, y: Seq<u8>|
            a.contains(x) && b.contains(y) ==> #[trigger] pairs(a, b).contains(x + y),
        forall|z: Seq<u8>| #[trigger]
            pairs(a, b).contains(z) ==> exists|x: Seq<u8>, y: Seq<u8>|
                a.contains(x) && b.contains(y) && z == x + y,
    decreases a.len(),
{
    if a.len() > 0 {
        let head = a.drop_last();
        lemma_pairs(head, b);
        let h = pairs(head, b);
        let row = each_after(a.last(), b);
        let p = pairs(a, b);
        assert(p == h + row);
        assert forall|x: Seq<u8>, y: Seq<u8>|
            a.contains(x) && b.contains(y) implies #[trigger] p.contains(x + y) by {
            let n = choose|n: int| 0 <= n < a.len() && a[n] == x;
            if n == a.len() - 1 {
                let m = choose|m: int| 0 <= m < b.len() && b[m] == y;
                assert(row[m] == x + y);
                assert(p[h.len() + m] == x + y);
            } else {
                assert(head[n] == x);
                assert(head.contains(x));
                assert(h.contains(x + y));
                let m = choose|m: int| 0 <= m < h.len() && h[m] == x + y;
                assert(p[m] == x + y);
            }
        }
        assert forall|z: Seq<u8>| #[trigger] p.contains(z) implies exists|
            x: Seq<u8>,
            y: Seq<u8>,
        | a.contains(x) && b.contains(y) && z == x + y by {
            let n = choose|n: int| 0 <= n < p.len() && p[n] == z;
            if n < h.len() {
                assert(h[n] == z);
                assert(h.contains(z));
                let (x, y) = choose|x: Seq<u8>, y: Seq<u8>|
                    head.contains(x) && b.contains(y) && z == x + y;
                let m = choose|m: int| 0 <= m < head.len() && head[m] == x;
                assert(a[m] == x);
                assert(a.contains(x) && b.contains(y) && z == x + y);
            } else {
                assert(row[n - h.len()] == z);
                assert(b.contains(b[n - h.len()]));
                assert(a.contains(a[a.len() - 1]));
                assert(z == a.last() + b[n - h.len()]);
            }
        }
    }
}

proof fn lemma_concat_before(x: Seq<u8>, y: Seq<u8>, u: Seq<u8>, v: Seq<u8>)
    requires
        x.len() == y.len(),
        before(Order::Prefix, x, y) || (x == y && before(Order::Prefix, u, v)),
    ensures
        before(Order::Prefix, x + u, y + v),
{
    if before(Order::Prefix, x, y) {
        let k = choose|k: int| parts_below(x, y, k);
        assert(parts_below(x + u, y + v, k));
    } else {
        let k = choose|k: int| parts_below(u, v, k);
        assert(parts_below(x + u, y + v, x.len() + k)) by {
            assert forall|i: int| 0 <= i < x.len() + k implies (x + u)[i] == (y + v)[i] by {
                if i >= x.len() {
                    assert(u[i - x.len()] == v[i - x.len()]);
                }
            }
        }
    }
}

/// Crossing a fixed-width clean left side onto a clean right side emits the
/// pairs in lexicographic order.
pub proof fn lemma_pairs_strict(a: Seq<Seq<u8>>, b: Seq<Seq<u8>>)
    requires
        strictly_ascending(Order::Prefix, a),
        strictly_ascending(Order::Prefix, b),
        uniform(a),
    ensures
        strictly_ascending(Order::Prefix, pairs(a, b)),
        pairs(a, b).len() == a.len() * b.len(),
    decreases a.len(),
{
    if a.len() > 0 {
        let head = a.drop_last();
        assert forall|i: int, j: int| 0 <= i < head.len() && 0 <= j < head.len() implies (
        #[trigger] head[i]).len() == (#[trigger] head[j]).len() by {
            assert(a[i].len() == a[j].len());
        }
        assert(strictly_ascending(Order::Prefix, head)) by {
            assert forall|i: int, j: int| 0 <= i < j < head.len() implies before(
                Order::Prefix,
                #[trigger] head[i],
                #[trigger] head[j],
            ) by {
                assert(before(Order::Prefix, a[i], a[j]));
            }
        }
        lemma_pairs_strict(head, b);
        lemma_pairs(head, b);
        let h = pairs(head, b);
        let row = each_after(a.last(), b);
        let p = pairs(a, b);
        assert(p == h + row);
        assert(a.len() * b.len() == head.len() * b.len() + b.len()) by (nonlinear_arith)
            requires
                a.len() == head.len() + 1,
        ;
        assert forall|i: int, j: int| 0 <= i < j < p.len() implies before(
            Order::Prefix,
            #[trigger] p[i],
            #[trigger] p[j],
        ) by {
            if j < h.len() {
                assert(before(Order::Prefix, h[i], h[j]));
            } else if i < h.len() {
                assert(h.contains(h[i]));
                let (x, y) = choose|x: Seq<u8>, y: Seq<u8>|
                    head.contains(x) && b.contains(y) && h[i] == x + y;
                let n = choose|n: int| 0 <= n < head.len() && head[n] == x;
                assert(before(Order::Prefix, a[n], a[a.len() - 1]));
                assert(a[n].len() == a[a.len() - 1].len());
                lemma_concat_before(x, a.last(), y, b[j - h.len()]);
            } else {
                assert(before(Order::Prefix, b[i - h.len()], b[j - h.len()]));
                lemma_concat_before(a.last(), a.last(), b[i - h.len()], b[j - h.len()]);
            }
        }
    } else {
        assert(a.len() * b.len() == 0) by (nonlinear_arith)
            requires
                a.len() == 0,
        ;
    }
}

/// A selection holds only members, and every marked one.
pub proof fn lemma_selected(s: Seq<Seq<u8>>, keep: Seq<bool>)
    requires
        keep.len() >= s.len(),
    ensures
        forall|x: Seq<u8>| #[trigger]
            selected(s, keep).contains(x) ==> exists|i: int|
                0 <= i < s.len() && keep[i] && s[i] == x,
        forall|i: int|
            0 <= i < s.len() && keep[i] ==> #[trigger] selected(s, keep).contains(s[i]),
        selected(s, keep).len() <= s.len(),
    decreases s.len(),
{
    if s.len() > 0 {
        let head = s.drop_last();
        lemma_selected(head, keep);
        let r = selected(s, keep);
        let h = selected(head, keep);
        assert forall|x: Seq<u8>| #[trigger] r.contains(x) implies exists|i: int|
            0 <= i < s.len() && keep[i] && s[i] == x by {
            let n = choose|n: int| 0 <= n < r.len() && r[n] == x;
            if n < h.len() {
                assert(h[n] == x);
                assert(h.contains(x));
                let m = choose|m: int| 0 <= m < head.len() && keep[m] && head[m] == x;
                assert(s[m] == x);
            } else {
                assert(s[s.len() - 1] == x);
            }
        }
        assert forall|i: int| 0 <= i < s.len() && keep[i] implies #[trigger] r.contains(s[i]) by {
            if i == s.len() - 1 {
                assert(r[h.len() as int] == s[i]);
            } else {
                assert(head[i] == s[i]);
                assert(h.contains(head[i]));
                let n = choose|n: int| 0 <= n < h.len() && h[n] == s[i];
                assert(r[n] == s[i]);
            }
        }
    }
}

proof fn lemma_selected_sorted(order: Order, s: Seq<Seq<u8>>, keep: Seq<bool>)
    requires
        keep.len() >= s.len(),
    ensures
        ascending(order, s) ==> ascending(order, selected(s, keep)),
        strictly_ascending(order, s) ==> strictly_ascending(order, selected(s, keep)),
    decreases s.len(),
{
    if s.len() > 0 {
        let head = s.drop_last();
        lemma_selected_sorted(order, head, keep);
        lemma_selected(head, keep);
        let r = selected(s, keep);
        let h = selected(head, keep);
        if ascending(order, s) {
            assert forall|i: int, j: int| 0 <= i < j < r.len() implies !before(
                order,
                #[trigger] r[j],
                #[trigger] r[i],
            ) by {
                assert(h.contains(h[i]));
                if j == h.len() {
                    let n = choose|n: int| 0 <= n < head.len() && keep[n] && head[n] == h[i];
                    assert(!before(order, s[s.len() - 1], s[n]));
                } else {
                    assert(ascending(order, head));
                    assert(!before(order, h[j], h[i]));
                }
            }
        }
        if strictly_ascending(order, s) {
            assert forall|i: int, j: int| 0 <= i < j < r.len() implies before(
                order,
                #[trigger] r[i],
                #[trigger] r[j],
            ) by {
                assert(h.contains(h[i]));
                if j == h.len() {
                    let n = choose|n: int| 0 <= n < head.len() && keep[n] && head[n] == h[i];
                    assert(before(order, s[n], s[s.len() - 1]));
                } else {
                    assert(strictly_ascending(order, head));
                    assert(before(order, h[i], h[j]));
                }
            }
        }
    }
}

/// `Vec::sort_unstable_by` under [`cmp_in`]: the items are permuted into
/// ascending order.
#[verifier::external_body]
fn sort_in(items: &mut Vec<Gram>, order: Order)
    ensures
        ascending(order, texts(final(items)@)),
        texts(final(items)@).to_multiset() == texts(old(items)@).to_multiset(),
{
    items.sort_unstable_by(|a, b| cmp_in(order, a, b));
}

/// A vector of equal strings.
pub fn duplicate_all(items: &[Gram]) -> (out: Vec<Gram>)
    ensures
        texts(out@) == texts(items@),
{
    let mut out: Vec<Gram> = Vec::new();
    let mut i: usize = 0;
    while i < items.len()
        invariant
            i <= items@.len(),
            out@.len() == i,
            forall|k: int| 0 <= k < i ==> out@[k]@ == items@[k]@,
        decreases items@.len() - i,
    {
        out.push(items[i].duplicate());
        i = i + 1;
    }
    assert(texts(out@) =~= texts(items@));
    out
}

/// A set of byte strings. Always present; absence is modelled with `Option`.
#[derive(Debug, Clone)]
pub struct StringSet {
    items: Vec<Gram>,
    shape: Shape,
}

impl View for StringSet {
    type V = Seq<Seq<u8>>;

    closed spec fn view(&self) -> Seq<Seq<u8>> {
        texts(self.items@)
    }
}

impl Default for StringSet {
    fn default() -> (set: StringSet)
        ensures
            set.wf(),
            set@ == Seq::<Seq<u8>>::empty(),
    {
        StringSet::new()
    }
}

impl PartialEq for StringSet {
    fn eq(&self, other: &Self) -> (same: bool) {
        if self.items.len() != other.items.len() {
            assert(self@.len() != other@.len());
            return false;
        }
        let mut i: usize = 0;
        while i < self.items.len()
            invariant
                i <= self.items@.len() == other.items@.len(),
                forall|k: int| 0 <= k < i ==> self@[k] == other@[k],
            decreases self.items@.len() - i,
        {
            if !same_bytes(self.items[i].as_bytes(), other.items[i].as_bytes()) {
                assert(self@[i as int] != other@[i as int]);
                return false;
            }
            i = i + 1;
        }
        assert(self@ =~= other@);
        true
    }
}

impl vstd::std_specs::cmp::PartialEqSpecImpl for StringSet {
    open spec fn obeys_eq_spec() -> bool {
        true
    }

    open spec fn eq_spec(&self, other: &Self) -> bool {
        self@ == other@
    }
}

impl Eq for StringSet {

}

impl StringSet {
    /// The recorded order, if any, is the order of the strings.
    pub closed spec fn wf(self) -> bool {
        match self.shape {
            Shape::Loose => true,
            Shape::Sorted(order) => ascending(order, self@),
            Shape::Clean(order) => strictly_ascending(order, self@),
        }
    }

    /// What is recorded about the order of the strings.
    pub closed spec fn recorded(self) -> Shape {
        self.shape
    }

    /// The empty set.
    pub fn new() -> (set: StringSet)
        ensures
            set.wf(),
            set@ == Seq::<Seq<u8>>::empty(),
            set.recorded() == Shape::Loose,
    {
        let set = StringSet { items: Vec::new(), shape: Shape::Loose };
        assert(set@ =~= Seq::<Seq<u8>>::empty());
        set
    }

    /// A set holding the single string `s`.
    pub fn of(s: Gram) -> (set: StringSet)
        ensures
            set.wf(),
            set@ == seq![s@],
            set.recorded() == Shape::Loose,
    {
        let mut items: Vec<Gram> = Vec::new();
        items.push(s);
        let set = StringSet { items, shape: Shape::Loose };
        assert(set@ =~= seq![s@]);
        set
    }

    /// A set with the same strings.
    pub fn duplicate(&self) -> (set: StringSet)
        requires
            self.wf(),
        ensures
            set.wf(),
            set@ == self@,
            set.recorded() == self.recorded(),
    {
        StringSet { items: duplicate_all(self.items.as_slice()), shape: self.shape }
    }

    /// Append `s` without re-sorting; call [`Self::clean`] before querying.
    pub fn push(&mut self, s: Gram)
        requires
            old(self).wf(),
        ensures
            final(self).wf(),
            final(self)@ == old(self)@.push(s@),
            final(self).recorded() == Shape::Loose,
    {
        self.items.push(s);
        self.shape = Shape::Loose;
        assert(self@ =~= old(self)@.push(s@));
    }

    /// Keep only the strings `f` accepts, preserving order.
    pub fn retain<F: Fn(&Gram) -> bool>(&mut self, f: F)
        requires
            old(self).wf(),
            forall|g: &Gram| f.requires((g,)),
        ensures
            final(self).wf(),
            exists|keep: Seq<bool>, grams: Seq<Gram>|
                keep.len() == old(self)@.len() && texts(grams) == old(self)@ && (forall|i: int|
                    0 <= i < keep.len() ==> f.ensures((&grams[i],), #[trigger] keep[i]))
                    && final(self)@ == selected(old(self)@, keep),
    {
        let mut keep: Vec<bool> = Vec::new();
        let mut i: usize = 0;
        while i < self.items.len()
            invariant
                i <= self.items@.len(),
                keep@.len() == i,
                forall|g: &Gram| f.requires((g,)),
                forall|k: int| 0 <= k < i ==> f.ensures((&self.items@[k],), #[trigger] keep@[k]),
            decreases self.items@.len() - i,
        {
            keep.push(f(&self.items[i]));
            i = i + 1;
        }
        let ghost grams = self.items@;
        self.select(&keep);
        assert(texts(grams) =~= old(self)@);
    }

    /// Keep only the strings whose flag is set, preserving order.
    pub fn select(&mut self, keep: &Vec<bool>)
        requires
            old(self).wf(),
            keep@.len() == old(self)@.len(),
        ensures
            final(self).wf(),
            final(self)@ == selected(old(self)@, keep@),
            final(self).recorded() == old(self).recorded(),
    {
        let ghost before_items = self@;
        let mut out: Vec<Gram> = Vec::new();
        let mut i: usize = 0;
        assert(texts(out@) =~= selected(before_items.take(0), keep@));
        while i < self.items.len()
            invariant
                i <= self.items@.len(),
                keep@.len() == self.items@.len(),
                self@ == before_items,
                before_items.len() == self.items@.len(),
                texts(out@) == selected(before_items.take(i as int), keep@),
            decreases self.items@.len() - i,
        {
            let ghost prior = out@;
            if keep[i] {
                out.push(self.items[i].duplicate());
                assert(texts(out@) =~= texts(prior).push(self@[i as int]));
            }
            i = i + 1;
            assert(before_items.take(i as int).drop_last() =~= before_items.take(i - 1));
            assert(before_items.take(i as int).last() == before_items[i - 1]);
        }
        assert(before_items.take(i as int) =~= before_items);
        proof {
            match self.shape {
                Shape::Loose => {},
                Shape::Sorted(order) => lemma_selected_sorted(order, before_items, keep@),
                Shape::Clean(order) => lemma_selected_sorted(order, before_items, keep@),
            }
        }
        self.items = out;
    }

    /// The ASCII-case-folded image of the set, deduplicated.
    pub fn fold_ascii(&self) -> (set: StringSet)
        ensures
            set.wf(),
            set@ == cleaned(Order::Prefix, lowered_all(self@)),
            set.recorded() == Shape::Clean(Order::Prefix),
    {
        let mut items: Vec<Gram> = Vec::new();
        let mut i: usize = 0;
        while i < self.items.len()
            invariant
                i <= self.items@.len(),
                items@.len() == i,
                forall|k: int| 0 <= k < i ==> items@[k]@ == lowered(self@[k]),
            decreases self.items@.len() - i,
        {
            items.push(Gram::from_vec(fold_bytes(self.items[i].as_bytes())));
            i = i + 1;
        }
        let mut set = StringSet { items, shape: Shape::Loose };
        assert(set@ =~= lowered_all(self@));
        set.clean(Order::Prefix);
        set
    }

    /// Number of strings in the set.
    pub fn len(&self) -> (n: usize)
        ensures
            n == self@.len(),
    {
        self.items.len()
    }

    /// Whether the set is empty.
    pub fn is_empty(&self) -> (empty: bool)
        ensures
            empty == (self@.len() == 0),
    {
        self.items.len() == 0
    }

    /// The strings, in their current order.
    pub fn as_slice(&self) -> (items: &[Gram])
        ensures
            texts(items@) == self@,
            items@.len() == self@.len(),
    {
        self.items.as_slice()
    }

    /// Take ownership of the backing strings.
    pub fn into_vec(self) -> (items: Vec<Gram>)
        ensures
            texts(items@) == self@,
            items@.len() == self@.len(),
    {
        self.items
    }

    /// The string at `i`.
    pub fn at(&self, i: usize) -> (s: &Gram)
        requires
            i < self@.len(),
        ensures
            s@ == self@[i as int],
    {
        &self.items[i]
    }

    /// Length of the shortest string, or 0 when empty.
    pub fn min_len(&self) -> (n: usize)
        ensures
            n == min_len(self@),
    {
        let mut n: usize = 0;
        let mut i: usize = 0;
        while i < self.items.len()
            invariant
                i <= self.items@.len() == self@.len(),
                n == min_len(self@.take(i as int)),
            decreases self.items@.len() - i,
        {
            let len: usize = self.items[i].len();
            assert(self@.take(i + 1).drop_last() =~= self@.take(i as int));
            if i == 0 || len < n {
                n = len;
            }
            i = i + 1;
        }
        assert(self@.take(i as int) =~= self@);
        n
    }

    /// Length of the longest string, or 0 when empty.
    pub fn max_len(&self) -> (n: usize)
        ensures
            n == max_len(self@),
    {
        let mut n: usize = 0;
        let mut i: usize = 0;
        while i < self.items.len()
            invariant
                i <= self.items@.len() == self@.len(),
                n == max_len(self@.take(i as int)),
            decreases self.items@.len() - i,
        {
            let len: usize = self.items[i].len();
            assert(self@.take(i + 1).drop_last() =~= self@.take(i as int));
            if len > n {
                n = len;
            }
            i = i + 1;
        }
        assert(self@.take(i as int) =~= self@);
        n
    }

    /// Total bytes held by all strings in the set.
    pub fn byte_len(&self) -> (n: usize)
        ensures
            n == clamp(byte_len(self@) as int),
    {
        let mut n: usize = 0;
        let mut i: usize = 0;
        while i < self.items.len()
            invariant
                i <= self.items@.len() == self@.len(),
                n == clamp(byte_len(self@.take(i as int)) as int),
            decreases self.items@.len() - i,
        {
            assert(self@.take(i + 1).drop_last() =~= self@.take(i as int));
            n = add_to_max(n, self.items[i].len());
            i = i + 1;
        }
        assert(self@.take(i as int) =~= self@);
        n
    }

    /// Sort by `order` and remove duplicates, in place. A set already known
    /// to hold that shape does no work.
    pub fn clean(&mut self, order: Order)
        requires
            old(self).wf(),
        ensures
            final(self).wf(),
            final(self)@ == cleaned(order, old(self)@),
            final(self).recorded() == Shape::Clean(order),
    {
        if self.shape.clean_in(order) {
            proof {
                lemma_cleaned_is(order, self@, self@);
            }
            return;
        }
        let ghost raw = self@;
        if !self.shape.sorted_in(order) {
            sort_in(&mut self.items, order);
            proof {
                raw.to_multiset_ensures();
                self@.to_multiset_ensures();
                assert(same_members(self@, raw)) by {
                    assert forall|x: Seq<u8>| #[trigger] self@.contains(x) <==> raw.contains(x) by {
                        assert(self@.to_multiset().count(x) == raw.to_multiset().count(x));
                    }
                }
            }
        } else {
            proof {
                if self.shape == Shape::Clean(order) {
                    lemma_strict_is_ascending(order, self@);
                }
            }
        }
        proof {
            lemma_runs(order, self@);
            lemma_cleaned(order, self@);
            lemma_cleaned_is(order, runs(self@), raw);
        }
        self.dedup();
        self.shape = Shape::Clean(order);
        proof {
            lemma_cleaned(order, raw);
        }
    }

    /// Drop each string equal to its left neighbour.
    fn dedup(&mut self)
        ensures
            final(self)@ == runs(old(self)@),
    {
        let ghost raw = self@;
        let mut out: Vec<Gram> = Vec::new();
        let mut i: usize = 0;
        assert(texts(out@) =~= runs(raw.take(0)));
        while i < self.items.len()
            invariant
                i <= self.items@.len(),
                self@ == raw,
                raw.len() == self.items@.len(),
                texts(out@) == runs(raw.take(i as int)),
            decreases self.items@.len() - i,
        {
            let ghost prior = out@;
            assert(raw.take(i + 1).drop_last() =~= raw.take(i as int));
            if i == 0 || !same_bytes(self.items[i].as_bytes(), self.items[i - 1].as_bytes()) {
                out.push(self.items[i].duplicate());
                assert(texts(out@) =~= texts(prior).push(raw[i as int]));
                if i == 0 {
                    assert(texts(prior) =~= Seq::<Seq<u8>>::empty());
                    assert(raw.take(1) =~= seq![raw[0]]);
                    assert(texts(out@) =~= raw.take(1));
                }
            }
            assert(i > 0 ==> raw.take(i + 1)[i as int] == raw[i as int] && raw.take(i + 1)[i - 1]
                == raw[i - 1]);
            i = i + 1;
        }
        assert(raw.take(i as int) =~= raw);
        self.items = out;
    }

    /// Shorten every string to its leading (or trailing) `keep` bytes, the
    /// end `order` names. Both orders compare the kept bytes before anything
    /// the cut drops, so a set sorted in `order` stays sorted, though the
    /// cut can make neighbours equal.
    pub fn truncate(&mut self, order: Order, keep: usize)
        requires
            old(self).wf(),
        ensures
            final(self).wf(),
            final(self)@ == cut_all(order, old(self)@, keep as int),
    {
        let ghost raw = self@;
        let mut out: Vec<Gram> = Vec::new();
        let mut i: usize = 0;
        while i < self.items.len()
            invariant
                i <= self.items@.len(),
                self@ == raw,
                out@.len() == i,
                forall|k: int| 0 <= k < i ==> out@[k]@ == cut(order, raw[k], keep as int),
            decreases self.items@.len() - i,
        {
            let s = &self.items[i];
            if s.len() <= keep {
                out.push(s.duplicate());
            } else {
                match order {
                    Order::Prefix => out.push(s.head(keep)),
                    Order::Suffix => out.push(s.tail(keep)),
                }
            }
            i = i + 1;
        }
        let sorted = self.shape.sorted_in(order);
        proof {
            if sorted {
                if self.shape == Shape::Clean(order) {
                    lemma_strict_is_ascending(order, raw);
                }
                lemma_cut_ascending(order, raw, keep as int);
            }
        }
        self.items = out;
        assert(self@ =~= cut_all(order, raw, keep as int));
        self.shape = if sorted {
            Shape::Sorted(order)
        } else {
            Shape::Loose
        };
    }
}

/// The bytes with every ASCII letter in lower case.
pub fn fold_bytes(bytes: &[u8]) -> (out: Vec<u8>)
    ensures
        out@ == lowered(bytes@),
{
    let mut out: Vec<u8> = Vec::new();
    let mut i: usize = 0;
    while i < bytes.len()
        invariant
            i <= bytes@.len(),
            out@.len() == i,
            forall|k: int| 0 <= k < i ==> out@[k] == lower_byte(bytes@[k]),
        decreases bytes@.len() - i,
    {
        out.push(fold_byte(bytes[i]));
        i = i + 1;
    }
    assert(out@ =~= lowered(bytes@));
    out
}

/// The lower-case form of an ASCII letter, other bytes unchanged.
pub fn fold_byte(b: u8) -> (r: u8)
    ensures
        r == lower_byte(b),
{
    if 0x41 <= b && b <= 0x5A {
        b + 0x20
    } else {
        b
    }
}

} // verus!
