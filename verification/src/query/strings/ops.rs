//! Unions, products and searches of string sets.

use vstd::prelude::*;

use crate::num::{clamp, mul_to_max};
use crate::query::gram::{same_bytes, texts, Gram};
use crate::query::order::{
    ascending, before, cleaned, is_before, lemma_before_total, lemma_before_transitive,
    lemma_cleaned, lemma_cleaned_is, lemma_strict_is_ascending, reading, same_members, shared_in,
    shares, strictly_ascending, Order, Shape,
};
use crate::query::strings::{
    crossed, cut, cut_all, duplicate_all, each_after, fits, lemma_cut_ascending, lemma_pairs_strict,
    lemma_runs, pairs, runs, uniform, united, StringSet,
};

verus! {

/// `x` occurs, with nothing that sorts after it on its left.
pub open spec fn found_within_run(s: Seq<Seq<u8>>, x: Seq<u8>) -> bool {
    exists|i: int|
        0 <= i < s.len() && #[trigger] s[i] == x && forall|j: int|
            0 <= j < i ==> !before(Order::Prefix, x, #[trigger] s[j])
}

/// The neighbours of an ascending set whose shared bytes fall short of `keep`.
spec fn splits(order: Order, s: Seq<Seq<u8>>, keep: int) -> nat
    decreases s.len(),
{
    if s.len() <= 1 {
        0
    } else {
        let rest = splits(order, s.drop_last(), keep);
        if cut(order, s[s.len() - 2], keep) == cut(order, s[s.len() - 1], keep) {
            rest
        } else {
            rest + 1
        }
    }
}

proof fn lemma_splits_runs(order: Order, s: Seq<Seq<u8>>, keep: int)
    requires
        s.len() > 0,
    ensures
        runs(cut_all(order, s, keep)).len() == 1 + splits(order, s, keep),
    decreases s.len(),
{
    let c = cut_all(order, s, keep);
    if s.len() > 1 {
        lemma_splits_runs(order, s.drop_last(), keep);
        assert(c.drop_last() =~= cut_all(order, s.drop_last(), keep));
    }
}

/// Distinct neighbours collapse under a cut exactly when it keeps no more
/// than the bytes they share.
proof fn lemma_collapse(order: Order, a: Seq<u8>, b: Seq<u8>, shared: nat, keep: int)
    requires
        a != b,
        shares(order, a, b, shared),
        keep >= 0,
    ensures
        cut(order, a, keep) == cut(order, b, keep) <==> keep <= shared,
{
    let (ra, rb) = (reading(order, a), reading(order, b));
    let (ca, cb) = (cut(order, a, keep), cut(order, b, keep));
    assert(a.reverse().reverse() =~= a);
    assert(b.reverse().reverse() =~= b);
    if keep <= shared {
        assert forall|i: int| 0 <= i < keep implies ca[i] == cb[i] by {
            match order {
                Order::Prefix => {
                    assert(ra[i] == rb[i]);
                },
                Order::Suffix => {
                    assert(ra[keep - 1 - i] == rb[keep - 1 - i]);
                },
            }
        }
        assert(ca =~= cb);
    } else if ca == cb {
        if a.len() <= keep && b.len() <= keep {
        } else if a.len() <= keep {
            assert(shared < ra.len() ==> ra[shared as int] != rb[shared as int]);
            match order {
                Order::Prefix => {
                    assert(ca[shared as int] == cb[shared as int]);
                },
                Order::Suffix => {
                    assert(ca[keep - 1 - shared] == cb[keep - 1 - shared]);
                },
            }
        } else {
            match order {
                Order::Prefix => {
                    assert(ca[shared as int] == cb[shared as int]);
                },
                Order::Suffix => {
                    assert(ca[keep - 1 - shared] == cb[keep - 1 - shared]);
                },
            }
        }
    }
}

/// The neighbours in the first `n` strings that share exactly `k` bytes.
spec fn sharing(order: Order, s: Seq<Seq<u8>>, k: int) -> nat
    decreases s.len(),
{
    if s.len() <= 1 {
        0
    } else {
        let rest = sharing(order, s.drop_last(), k);
        if shares(order, s[s.len() - 2], s[s.len() - 1], k as nat) {
            rest + 1
        } else {
            rest
        }
    }
}

proof fn lemma_shares_unique(order: Order, a: Seq<u8>, b: Seq<u8>, m: nat, n: nat)
    requires
        shares(order, a, b, m),
        shares(order, a, b, n),
    ensures
        m == n,
{
}

proof fn lemma_shares_exists(order: Order, a: Seq<u8>, b: Seq<u8>, from: nat) -> (n: nat)
    requires
        from <= a.len(),
        from <= b.len(),
        forall|i: int| 0 <= i < from ==> reading(order, a)[i] == reading(order, b)[i],
    ensures
        shares(order, a, b, n),
    decreases a.len() - from,
{
    let (ra, rb) = (reading(order, a), reading(order, b));
    if from == ra.len() || from == rb.len() || ra[from as int] != rb[from as int] {
        from
    } else {
        lemma_shares_exists(order, a, b, from + 1)
    }
}

/// One more kept byte splits exactly the neighbours that share `keep` bytes.
proof fn lemma_splits_step(order: Order, s: Seq<Seq<u8>>, keep: int)
    requires
        strictly_ascending(order, s),
        keep >= 0,
    ensures
        splits(order, s, keep + 1) == splits(order, s, keep) + sharing(order, s, keep),
        splits(order, s, 0) == 0,
        splits(order, s, keep) <= s.len(),
    decreases s.len(),
{
    if s.len() > 1 {
        let head = s.drop_last();
        assert(strictly_ascending(order, head)) by {
            assert forall|i: int, j: int| 0 <= i < j < head.len() implies before(
                order,
                #[trigger] head[i],
                #[trigger] head[j],
            ) by {
                assert(before(order, s[i], s[j]));
            }
        }
        lemma_splits_step(order, head, keep);
        let (a, b) = (s[s.len() - 2], s[s.len() - 1]);
        assert(before(order, a, b));
        lemma_before_total(order, a, b);
        let n = lemma_shares_exists(order, a, b, 0);
        lemma_collapse(order, a, b, n, keep);
        lemma_collapse(order, a, b, n, keep + 1);
        lemma_collapse(order, a, b, n, 0);
        if shares(order, a, b, keep as nat) {
            lemma_shares_unique(order, a, b, n, keep as nat);
        }
    }
}

proof fn lemma_splits_monotone(order: Order, s: Seq<Seq<u8>>, lo: int, hi: int)
    requires
        strictly_ascending(order, s),
        0 <= lo <= hi,
    ensures
        splits(order, s, lo) <= splits(order, s, hi),
    decreases hi - lo,
{
    if lo < hi {
        lemma_splits_step(order, s, hi - 1);
        lemma_splits_monotone(order, s, lo, hi - 1);
    }
}

/// How many strings survive a cut of a clean set.
proof fn lemma_fits_splits(order: Order, s: Seq<Seq<u8>>, keep: int, target: int)
    requires
        strictly_ascending(order, s),
        s.len() > 0,
        keep >= 0,
    ensures
        fits(order, s, keep, target) <==> 1 + splits(order, s, keep) <= target,
        cleaned(order, cut_all(order, s, keep)).len() <= s.len(),
{
    lemma_strict_is_ascending(order, s);
    lemma_cut_ascending(order, s, keep);
    lemma_runs(order, cut_all(order, s, keep));
    lemma_splits_runs(order, s, keep);
}

impl StringSet {
    /// Union with `other`, cleaned in `order`, reusing this set's storage.
    pub fn union(self, other: &StringSet, order: Order) -> (set: StringSet)
        requires
            self.wf(),
            other.wf(),
        ensures
            set.wf(),
            set@ == united(self@, other@, order),
            set.recorded() == Shape::Clean(order),
    {
        let mut set = self;
        if set.shape.sorted_in(order) && other.shape.sorted_in(order) {
            proof {
                if set.shape == Shape::Clean(order) {
                    lemma_strict_is_ascending(order, set@);
                }
                if other.shape == Shape::Clean(order) {
                    lemma_strict_is_ascending(order, other@);
                }
            }
            set.merge_from(other.items.as_slice(), order);
            set.shape = Shape::Sorted(order);
        } else {
            let mut more = duplicate_all(other.items.as_slice());
            let ghost added = more@;
            set.items.append(&mut more);
            set.shape = Shape::Loose;
            assert(set@ =~= self@ + texts(added));
        }
        let ghost joint = set@;
        set.clean(order);
        proof {
            lemma_cleaned(order, joint);
            lemma_cleaned_is(order, cleaned(order, joint), self@ + other@);
        }
        set
    }

    /// Merge an already-ordered `other` into this already-ordered set.
    fn merge_from(&mut self, other: &[Gram], order: Order)
        requires
            ascending(order, old(self)@),
            ascending(order, texts(other@)),
        ensures
            ascending(order, final(self)@),
            same_members(final(self)@, old(self)@ + texts(other@)),
    {
        let ghost left = self@;
        let ghost right = texts(other@);
        let mut out: Vec<Gram> = Vec::new();
        let mut i: usize = 0;
        let mut j: usize = 0;
        while i < self.items.len() || j < other.len()
            invariant
                i <= self.items@.len(),
                j <= other@.len(),
                self@ == left,
                left.len() == self.items@.len(),
                right == texts(other@),
                ascending(order, left),
                ascending(order, right),
                ascending(order, texts(out@)),
                forall|k: int, m: int|
                    0 <= k < out@.len() && i <= m < left.len() ==> !before(
                        order,
                        #[trigger] left[m],
                        (#[trigger] out@[k])@,
                    ),
                forall|k: int, m: int|
                    0 <= k < out@.len() && j <= m < right.len() ==> !before(
                        order,
                        #[trigger] right[m],
                        (#[trigger] out@[k])@,
                    ),
                forall|k: int|
                    0 <= k < out@.len() ==> (left + right).contains((#[trigger] out@[k])@),
                forall|m: int| 0 <= m < i ==> texts(out@).contains(#[trigger] left[m]),
                forall|m: int| 0 <= m < j ==> texts(out@).contains(#[trigger] right[m]),
            decreases self.items@.len() - i + other@.len() - j,
        {
            let ghost prior = out@;
            let from_left = if i == self.items.len() {
                false
            } else if j == other.len() {
                true
            } else {
                !is_before(order, &other[j], &self.items[i])
            };
            let ghost item = if from_left {
                left[i as int]
            } else {
                right[j as int]
            };
            proof {
                if i < left.len() && j < right.len() {
                    lemma_before_total(order, left[i as int], right[j as int]);
                }
            }
            if from_left {
                out.push(self.items[i].duplicate());
                assert((left + right)[i as int] == item);
                i = i + 1;
            } else {
                out.push(other[j].duplicate());
                assert((left + right)[left.len() + j] == item);
                j = j + 1;
            }
            assert(texts(out@) =~= texts(prior).push(item));
            assert(texts(out@)[prior.len() as int] == item);
            assert forall|m: int| i <= m < left.len() implies !before(
                order,
                #[trigger] left[m],
                item,
            ) by {
                if !from_left && i < left.len() {
                    lemma_not_before_chain(order, item, left[i as int], left[m]);
                }
            }
            assert forall|m: int| j <= m < right.len() implies !before(
                order,
                #[trigger] right[m],
                item,
            ) by {
                if from_left && j < right.len() {
                    lemma_not_before_chain(order, item, right[j as int], right[m]);
                }
            }
            assert forall|m: int| 0 <= m < i implies texts(out@).contains(#[trigger] left[m]) by {
                if !(from_left && m == i - 1) {
                    let n = choose|n: int| 0 <= n < prior.len() && texts(prior)[n] == left[m];
                    assert(texts(out@)[n] == left[m]);
                }
            }
            assert forall|m: int| 0 <= m < j implies texts(out@).contains(#[trigger] right[m]) by {
                if from_left || m != j - 1 {
                    let n = choose|n: int| 0 <= n < prior.len() && texts(prior)[n] == right[m];
                    assert(texts(out@)[n] == right[m]);
                }
            }
        }
        self.items = out;
        assert(same_members(self@, left + right)) by {
            assert forall|x: Seq<u8>| #[trigger] self@.contains(x) <==> (left + right).contains(
                x,
            ) by {
                if self@.contains(x) {
                    let n = choose|n: int| 0 <= n < self@.len() && self@[n] == x;
                    assert(self.items@[n]@ == x);
                }
                if (left + right).contains(x) {
                    let n = choose|n: int| 0 <= n < left.len() + right.len() && (left + right)[n]
                        == x;
                    if n < left.len() {
                        assert(left[n] == x);
                    } else {
                        assert(right[n - left.len()] == x);
                    }
                }
            }
        }
    }

    /// Whether `s` is a member. Assumes [`Order::Prefix`] order, walking only
    /// the run that could hold `s` when the order was never recorded.
    pub fn contains(&self, s: &Gram) -> (member: bool)
        requires
            self.wf(),
        ensures
            ascending(Order::Prefix, self@) ==> member == self@.contains(s@),
            member == found_within_run(self@, s@),
    {
        if self.shape.sorted_in(Order::Prefix) {
            proof {
                if self.shape == Shape::Clean(Order::Prefix) {
                    lemma_strict_is_ascending(Order::Prefix, self@);
                }
            }
            let at = self.lower_bound(s);
            let member = at < self.items.len() && same_bytes(
                self.items[at].as_bytes(),
                s.as_bytes(),
            );
            proof {
                lemma_before_total(Order::Prefix, s@, s@);
                if member {
                    assert(self@[at as int] == s@);
                    assert forall|j: int| 0 <= j < at implies !before(
                        Order::Prefix,
                        s@,
                        #[trigger] self@[j],
                    ) by {
                        lemma_before_total(Order::Prefix, self@[j], s@);
                    }
                } else if self@.contains(s@) {
                    let n = choose|n: int| 0 <= n < self@.len() && self@[n] == s@;
                    assert(n >= at);
                    lemma_before_total(Order::Prefix, self@[at as int], s@);
                    assert(!before(Order::Prefix, self@[n], self@[at as int]));
                }
            }
            return member;
        }
        let mut i: usize = 0;
        while i < self.items.len()
            invariant
                i <= self.items@.len(),
                forall|k: int| 0 <= k < i ==> self@[k] != s@,
                forall|k: int| 0 <= k < i ==> !before(Order::Prefix, s@, #[trigger] self@[k]),
            decreases self.items@.len() - i,
        {
            if is_before(Order::Prefix, s, &self.items[i]) {
                assert(before(Order::Prefix, s@, self@[i as int]));
                proof {
                    lemma_before_total(Order::Prefix, s@, s@);
                    if self@.contains(s@) {
                        let n = choose|n: int| 0 <= n < self@.len() && self@[n] == s@;
                        assert(before(Order::Prefix, self@[n], self@[i as int]));
                        assert(0 <= i < n < self@.len());
                    }
                }
                return false;
            }
            if same_bytes(self.items[i].as_bytes(), s.as_bytes()) {
                assert(self@[i as int] == s@);
                return true;
            }
            i = i + 1;
        }
        false
    }

    /// The number of strings before `s` in an ascending set.
    fn lower_bound(&self, s: &Gram) -> (at: usize)
        requires
            ascending(Order::Prefix, self@),
        ensures
            at <= self@.len(),
            forall|i: int| 0 <= i < at ==> before(Order::Prefix, #[trigger] self@[i], s@),
            forall|i: int| at <= i < self@.len() ==> !before(Order::Prefix, #[trigger] self@[i], s@),
    {
        let mut lo: usize = 0;
        let mut hi: usize = self.items.len();
        while lo < hi
            invariant
                lo <= hi <= self.items@.len() == self@.len(),
                ascending(Order::Prefix, self@),
                forall|i: int| 0 <= i < lo ==> before(Order::Prefix, #[trigger] self@[i], s@),
                forall|i: int|
                    hi <= i < self@.len() ==> !before(Order::Prefix, #[trigger] self@[i], s@),
            decreases hi - lo,
        {
            let mid: usize = lo + (hi - lo) / 2;
            if is_before(Order::Prefix, &self.items[mid], s) {
                assert forall|i: int| 0 <= i < mid + 1 implies before(
                    Order::Prefix,
                    #[trigger] self@[i],
                    s@,
                ) by {
                    if i < mid {
                        assert(!before(Order::Prefix, self@[mid as int], self@[i]));
                        lemma_before_total(Order::Prefix, self@[i], self@[mid as int]);
                        if self@[i] != self@[mid as int] {
                            lemma_before_transitive(Order::Prefix, self@[i], self@[mid as int], s@);
                        }
                    }
                }
                lo = mid + 1;
            } else {
                assert forall|i: int| mid <= i < self@.len() implies !before(
                    Order::Prefix,
                    #[trigger] self@[i],
                    s@,
                ) by {
                    if i > mid {
                        lemma_not_before_chain(Order::Prefix, s@, self@[mid as int], self@[i]);
                    }
                }
                hi = mid;
            }
        }
        lo
    }

    /// Every string from `self` concatenated with every string from `other`.
    ///
    /// Crossing a fixed-width left side onto a clean right side emits the
    /// pairs already in lexicographic order, so the common class-product
    /// case sorts nothing.
    pub fn cross(&self, other: &StringSet, order: Order) -> (set: StringSet)
        requires
            self.wf(),
            other.wf(),
        ensures
            set.wf(),
            set@ == crossed(self@, other@, order),
            set.recorded() == Shape::Clean(order),
    {
        let mut out: Vec<Gram> = Vec::new();
        let mut i: usize = 0;
        assert(texts(out@) =~= pairs(self@.take(0), other@));
        while i < self.items.len()
            invariant
                i <= self.items@.len() == self@.len(),
                texts(out@) == pairs(self@.take(i as int), other@),
            decreases self.items@.len() - i,
        {
            let ghost start = texts(out@);
            let mut j: usize = 0;
            assert(texts(out@) =~= start + each_after(self@[i as int], other@).take(0));
            while j < other.items.len()
                invariant
                    i < self.items@.len() == self@.len(),
                    j <= other.items@.len() == other@.len(),
                    texts(out@) == start + each_after(self@[i as int], other@).take(j as int),
                decreases other.items@.len() - j,
            {
                let ghost prior = texts(out@);
                out.push(Gram::concat(self.items[i].as_bytes(), other.items[j].as_bytes()));
                assert(texts(out@) =~= prior.push(self@[i as int] + other@[j as int]));
                j = j + 1;
                assert(texts(out@) =~= start + each_after(self@[i as int], other@).take(j as int));
            }
            assert(each_after(self@[i as int], other@).take(j as int) =~= each_after(
                self@[i as int],
                other@,
            ));
            i = i + 1;
            assert(self@.take(i as int).drop_last() =~= self@.take(i - 1));
        }
        assert(self@.take(i as int) =~= self@);
        let shape = self.cross_shape(other);
        proof {
            if shape == Shape::Clean(Order::Prefix) {
                lemma_pairs_strict(self@, other@);
            }
        }
        let mut set = StringSet { items: out, shape };
        set.clean(order);
        set
    }

    /// The size [`Self::cross`] with `other` would reach, when a fixed width
    /// on this side makes every concatenation distinct so no pair collapses.
    /// `None` when the count cannot be known without building it.
    pub fn cross_len(&self, other: &StringSet) -> (n: Option<usize>)
        ensures
            n is Some <==> self.recorded() is Clean && other.recorded() is Clean && uniform(self@),
            n matches Some(n) ==> n == clamp((self@.len() * other@.len()) as int),
    {
        if self.shape.is_clean() && other.shape.is_clean() && self.uniform_len() {
            Some(mul_to_max(self.items.len(), other.items.len()))
        } else {
            None
        }
    }

    /// The shape a cross product inherits from its operands.
    fn cross_shape(&self, other: &StringSet) -> (shape: Shape)
        ensures
            shape == if self.recorded() == Shape::Clean(Order::Prefix) && other.recorded()
                == Shape::Clean(Order::Prefix) && uniform(self@) {
                Shape::Clean(Order::Prefix)
            } else {
                Shape::Loose
            },
    {
        if self.shape.clean_in(Order::Prefix) && other.shape.clean_in(Order::Prefix)
            && self.uniform_len() {
            Shape::Clean(Order::Prefix)
        } else {
            Shape::Loose
        }
    }

    /// Whether every string is the same length, so concatenation cannot
    /// reorder the pairs it builds.
    fn uniform_len(&self) -> (same: bool)
        ensures
            same == uniform(self@),
    {
        let mut i: usize = 0;
        while i < self.items.len()
            invariant
                i <= self.items@.len() == self@.len(),
                forall|k: int| 0 <= k < i ==> (#[trigger] self@[k]).len() == self@[0].len(),
            decreases self.items@.len() - i,
        {
            if self.items[i].len() != self.items[0].len() {
                assert(self@[i as int].len() != self@[0].len());
                return false;
            }
            i = i + 1;
        }
        true
    }

    /// Whether every string in `self` also appears in `other`. Both sides
    /// are in [`Order::Prefix`].
    pub fn is_subset_of(&self, other: &[Gram]) -> (subset: bool)
        requires
            ascending(Order::Prefix, self@),
            ascending(Order::Prefix, texts(other@)),
        ensures
            subset == (forall|x: Seq<u8>| #[trigger] self@.contains(x) ==> texts(other@).contains(x)),
    {
        let ghost sup = texts(other@);
        let mut j: usize = 0;
        let mut i: usize = 0;
        while i < self.items.len()
            invariant
                i <= self.items@.len() == self@.len(),
                j <= other@.len() == sup.len(),
                sup == texts(other@),
                ascending(Order::Prefix, self@),
                ascending(Order::Prefix, sup),
                forall|k: int| 0 <= k < i ==> sup.contains(#[trigger] self@[k]),
                i < self@.len() ==> forall|m: int|
                    0 <= m < j ==> before(Order::Prefix, #[trigger] sup[m], self@[i as int]),
            decreases self.items@.len() - i,
        {
            while j < other.len() && is_before(Order::Prefix, &other[j], &self.items[i])
                invariant
                    i < self.items@.len() == self@.len(),
                    j <= other@.len() == sup.len(),
                    sup == texts(other@),
                    forall|m: int|
                        0 <= m < j ==> before(Order::Prefix, #[trigger] sup[m], self@[i as int]),
                decreases other@.len() - j,
            {
                j = j + 1;
            }
            if j >= other.len() || !same_bytes(other[j].as_bytes(), self.items[i].as_bytes()) {
                proof {
                    let x = self@[i as int];
                    assert(self@.contains(x));
                    if sup.contains(x) {
                        let n = choose|n: int| 0 <= n < sup.len() && sup[n] == x;
                        lemma_before_total(Order::Prefix, x, x);
                        assert(n >= j);
                        assert(j < other@.len());
                        lemma_before_total(Order::Prefix, sup[j as int], x);
                        assert(!before(Order::Prefix, sup[n], sup[j as int]));
                    }
                }
                return false;
            }
            assert(sup[j as int] == self@[i as int]);
            i = i + 1;
            proof {
                if i < self@.len() {
                    assert forall|m: int| 0 <= m < j implies before(
                        Order::Prefix,
                        #[trigger] sup[m],
                        self@[i as int],
                    ) by {
                        assert(!before(Order::Prefix, self@[i as int], self@[i - 1]));
                        lemma_before_total(Order::Prefix, self@[i - 1], self@[i as int]);
                        if self@[i - 1] != self@[i as int] {
                            lemma_before_transitive(
                                Order::Prefix,
                                sup[m],
                                self@[i - 1],
                                self@[i as int],
                            );
                        }
                    }
                }
            }
        }
        true
    }

    /// The longest `keep` in `1..=hi` whose [`Self::truncate`] leaves at most
    /// `target` distinct strings, or `None` when even one byte leaves more.
    ///
    /// Two neighbours in `order` collapse under a `keep`-byte truncation
    /// exactly when `keep` is at most the bytes they share at that end, so one
    /// pass over the neighbours prices every `keep` at once. The set must be
    /// cleaned in `order`.
    pub fn longest_fit(&self, order: Order, hi: usize, target: usize) -> (keep: Option<usize>)
        requires
            strictly_ascending(order, self@),
        ensures
            match keep {
                Some(keep) => 1 <= keep <= hi && fits(order, self@, keep as int, target as int) && (
                forall|k: int| keep < k <= hi ==> !fits(order, self@, k, target as int)),
                None => forall|k: int| 1 <= k <= hi ==> !fits(order, self@, k, target as int),
            },
    {
        if hi == 0 {
            return None;
        }
        proof {
            lemma_cut_none(order);
            if self@.len() > 0 {
                lemma_fits_splits(order, self@, hi as int, target as int);
            } else {
                assert(self@ =~= Seq::<Seq<u8>>::empty());
                assert(cut_all(order, self@, hi as int) =~= Seq::<Seq<u8>>::empty());
            }
        }
        if self.items.len() <= target {
            return Some(hi);
        }
        let mut cuts: Vec<usize> = Vec::new();
        let mut k: usize = 0;
        while k < hi
            invariant
                k <= hi,
                cuts@.len() == k,
                forall|m: int| 0 <= m < k ==> cuts@[m] == 0,
            decreases hi - k,
        {
            cuts.push(0);
            k = k + 1;
        }
        let mut i: usize = 1;
        while i < self.items.len()
            invariant
                1 <= i <= self.items@.len() == self@.len(),
                cuts@.len() == hi,
                strictly_ascending(order, self@),
                forall|m: int|
                    0 <= m < hi ==> (#[trigger] cuts@[m]) == sharing(
                        order,
                        self@.take(i as int),
                        m,
                    ) && cuts@[m] < i,
            decreases self.items@.len() - i,
        {
            let ghost prior = cuts@;
            let ghost seen = self@.take(i + 1);
            assert(seen.drop_last() =~= self@.take(i as int));
            assert(seen[i - 1] == self@[i - 1] && seen[i as int] == self@[i as int]);
            let shared: usize = shared_in(order, &self.items[i - 1], &self.items[i]);
            if shared < hi {
                let old_count: usize = cuts[shared];
                cuts.set(shared, old_count + 1);
            }
            i = i + 1;
            assert forall|m: int| 0 <= m < hi implies (#[trigger] cuts@[m]) == sharing(
                order,
                self@.take(i as int),
                m,
            ) && cuts@[m] < i by {
                assert(prior[m] == sharing(order, self@.take(i - 1), m));
                if shares(order, self@[i - 2], self@[i - 1], m as nat) {
                    lemma_shares_unique(
                        order,
                        self@[i - 2],
                        self@[i - 1],
                        m as nat,
                        shared as nat,
                    );
                }
            }
        }
        assert(self@.take(i as int) =~= self@);
        let mut distinct: usize = 1;
        let mut keep: usize = 0;
        let held: usize = self.items.len();
        proof {
            lemma_splits_step(order, self@, 0);
        }
        while keep < hi
            invariant
                keep <= hi,
                cuts@.len() == hi,
                strictly_ascending(order, self@),
                self@.len() > 0,
                self@.len() == held,
                forall|m: int| 0 <= m < hi ==> (#[trigger] cuts@[m]) == sharing(order, self@, m),
                distinct == 1 + splits(order, self@, keep as int),
                target < self@.len(),
                keep > 0 ==> distinct <= target,
            decreases hi - keep,
        {
            proof {
                lemma_splits_step(order, self@, keep as int);
                lemma_splits_step(order, self@, keep + 1);
                lemma_splits_bound(order, self@, keep + 1);
                assert(cuts@[keep as int] == sharing(order, self@, keep as int));
            }
            distinct = distinct + cuts[keep];
            if distinct > target {
                proof {
                    assert forall|k: int| keep < k <= hi implies !fits(
                        order,
                        self@,
                        k,
                        target as int,
                    ) by {
                        lemma_splits_monotone(order, self@, keep + 1, k);
                        lemma_fits_splits(order, self@, k, target as int);
                    }
                    if keep > 0 {
                        lemma_fits_splits(order, self@, keep as int, target as int);
                    }
                }
                return if keep > 0 {
                    Some(keep)
                } else {
                    None
                };
            }
            keep = keep + 1;
        }
        proof {
            lemma_fits_splits(order, self@, hi as int, target as int);
        }
        Some(hi)
    }
}

proof fn lemma_cut_none(order: Order)
    ensures
        cleaned(order, Seq::<Seq<u8>>::empty()) == Seq::<Seq<u8>>::empty(),
{
    lemma_cleaned_is(order, Seq::<Seq<u8>>::empty(), Seq::<Seq<u8>>::empty());
}

proof fn lemma_splits_bound(order: Order, s: Seq<Seq<u8>>, keep: int)
    ensures
        s.len() > 0 ==> splits(order, s, keep) < s.len(),
        s.len() == 0 ==> splits(order, s, keep) == 0,
    decreases s.len(),
{
    if s.len() > 1 {
        lemma_splits_bound(order, s.drop_last(), keep);
    }
}

/// Nothing from `b` on comes before `a`, where `b` does not.
proof fn lemma_not_before_chain(order: Order, a: Seq<u8>, b: Seq<u8>, c: Seq<u8>)
    requires
        !before(order, b, a),
        b == c || !before(order, c, b),
    ensures
        !before(order, c, a),
{
    if before(order, c, a) && b != c {
        lemma_before_total(order, b, c);
        lemma_before_transitive(order, b, c, a);
    }
}

/// A cross product with a clean fixed-width left side and a clean right side
/// has as many members as [`StringSet::cross_len`] reports.
pub proof fn law_cross_len(a: Seq<Seq<u8>>, b: Seq<Seq<u8>>, x: Order, y: Order, order: Order)
    requires
        strictly_ascending(x, a),
        strictly_ascending(y, b),
        uniform(a),
    ensures
        crossed(a, b, order).len() == a.len() * b.len(),
{
    lemma_pairs_distinct(x, y, a, b);
    lemma_cleaned(order, pairs(a, b));
    let c = cleaned(order, pairs(a, b));
    pairs(a, b).unique_seq_to_set();
    c.unique_seq_to_set();
    assert(c.to_set() =~= pairs(a, b).to_set()) by {
        assert forall|z: Seq<u8>| #[trigger] c.to_set().contains(z) <==> pairs(
            a,
            b,
        ).to_set().contains(z) by {
            assert(c.contains(z) <==> pairs(a, b).contains(z));
        }
    }
}

proof fn lemma_pairs_distinct(x: Order, y: Order, a: Seq<Seq<u8>>, b: Seq<Seq<u8>>)
    requires
        strictly_ascending(x, a),
        strictly_ascending(y, b),
        uniform(a),
    ensures
        pairs(a, b).no_duplicates(),
        pairs(a, b).len() == a.len() * b.len(),
    decreases a.len(),
{
    lemma_strict_is_ascending(x, a);
    lemma_strict_is_ascending(y, b);
    if a.len() > 0 {
        let head = a.drop_last();
        assert forall|i: int, j: int| 0 <= i < head.len() && 0 <= j < head.len() implies (
        #[trigger] head[i]).len() == (#[trigger] head[j]).len() by {
            assert(a[i].len() == a[j].len());
        }
        assert forall|i: int, j: int| 0 <= i < j < head.len() implies before(
            x,
            #[trigger] head[i],
            #[trigger] head[j],
        ) by {
            assert(before(x, a[i], a[j]));
        }
        lemma_pairs_distinct(x, y, head, b);
        crate::query::strings::lemma_pairs(head, b);
        let h = pairs(head, b);
        let p = pairs(a, b);
        let last = a.last();
        assert(a.len() * b.len() == head.len() * b.len() + b.len()) by (nonlinear_arith)
            requires
                a.len() == head.len() + 1,
        ;
        assert forall|i: int, j: int| 0 <= i < j < p.len() implies p[i] != p[j] by {
            if j < h.len() {
                assert(h[i] != h[j]);
            } else if i < h.len() {
                assert(h.contains(h[i]));
                let (u, v) = choose|u: Seq<u8>, v: Seq<u8>|
                    head.contains(u) && b.contains(v) && h[i] == u + v;
                let n = choose|n: int| 0 <= n < head.len() && head[n] == u;
                assert(a[n].len() == a[a.len() - 1].len());
                assert(u != last);
                let w = b[j - h.len()];
                if u + v == last + w {
                    assert((u + v).take(u.len() as int) =~= u);
                    assert((last + w).take(u.len() as int) =~= last);
                }
            } else {
                let (v, w) = (b[i - h.len()], b[j - h.len()]);
                assert(v != w);
                if last + v == last + w {
                    assert((last + v).skip(last.len() as int) =~= v);
                    assert((last + w).skip(last.len() as int) =~= w);
                }
            }
        }
    } else {
        assert(a.len() * b.len() == 0) by (nonlinear_arith)
            requires
                a.len() == 0,
        ;
    }
}

} // verus!
