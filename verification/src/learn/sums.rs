//! How counts add up over a run.

use vstd::arithmetic::div_mod::{lemma_add_mod_noop, lemma_small_mod};
use vstd::prelude::*;
use vstd::seq_lib::{commutative_foldr, lemma_fold_right_permutation};

use crate::learn::pairs::{
    batch_bytes, batch_count, batch_total, law_grouping_does_not_count, lemma_pair_count_bound,
    pair_count, pair_total,
};
use crate::learn::settings::LearnSettings;
use crate::num::{clamp_u32, clamp_u64, wrap_add};
use crate::table::pair_at;

verus! {

/// The counts and totals a counter or a tally holds.
pub ghost struct Counts {
    /// The count of each pair.
    pub tallies: Seq<u64>,
    /// The byte pairs counted.
    pub pairs: u64,
    /// The bytes counted.
    pub bytes: u64,
    /// The files completed.
    pub files: u64,
}

/// The counts of both, past the greatest value from zero again.
pub open spec fn plus(a: Counts, b: Counts) -> Counts {
    Counts {
        tallies: Seq::new(
            LearnSettings::PAIR_COUNT as nat,
            |p: int| wrap_add(a.tallies[p], b.tallies[p] as int),
        ),
        pairs: wrap_add(a.pairs, b.pairs as int),
        bytes: wrap_add(a.bytes, b.bytes as int),
        files: wrap_add(a.files, b.files as int),
    }
}

/// The counts of two tallies in one, each count up to its greatest value.
pub open spec fn gathered(a: Counts, b: Counts) -> Counts {
    Counts {
        tallies: Seq::new(
            LearnSettings::PAIR_COUNT as nat,
            |p: int| clamp_u32(a.tallies[p] + b.tallies[p]) as u64,
        ),
        pairs: (a.pairs + b.pairs) as u64,
        bytes: (a.bytes + b.bytes) as u64,
        files: (a.files + b.files) as u64,
    }
}

/// The counts of texts that are counted in one batch.
pub open spec fn batch_counts(texts: Seq<Seq<u8>>) -> Counts {
    Counts {
        tallies: Seq::new(
            LearnSettings::PAIR_COUNT as nat,
            |p: int| clamp_u32(batch_count(texts, p) as int) as u64,
        ),
        pairs: clamp_u64(batch_total(texts) as int) as u64,
        bytes: clamp_u64(batch_bytes(texts) as int) as u64,
        files: 0,
    }
}

/// A counter after a series of merges, in order.
pub open spec fn after_merges(start: Counts, parts: Seq<Counts>) -> Counts
    decreases parts.len(),
{
    if parts.len() == 0 {
        start
    } else {
        plus(after_merges(start, parts.drop_last()), parts.last())
    }
}

/// The parts' values, together.
pub open spec fn sum_of(parts: Seq<Counts>, value: spec_fn(Counts) -> int) -> int
    decreases parts.len(),
{
    if parts.len() == 0 {
        0
    } else {
        sum_of(parts.drop_last(), value) + value(parts.last())
    }
}

/// The count of one pair.
pub open spec fn tally_at(p: int) -> spec_fn(Counts) -> int {
    |c: Counts| c.tallies[p] as int
}

/// The byte pairs counted.
pub open spec fn pairs_in() -> spec_fn(Counts) -> int {
    |c: Counts| c.pairs as int
}

/// The bytes counted.
pub open spec fn bytes_in() -> spec_fn(Counts) -> int {
    |c: Counts| c.bytes as int
}

/// The files completed.
pub open spec fn files_in() -> spec_fn(Counts) -> int {
    |c: Counts| c.files as int
}

proof fn lemma_wrap_twice(a: u64, b: int, c: int)
    requires
        0 <= b,
        0 <= c,
    ensures
        wrap_add(wrap_add(a, b), c) == wrap_add(a, b + c),
        wrap_add(a, 0) == a,
{
    lemma_add_mod_noop(a + b, c, 0x1_0000_0000_0000_0000);
    lemma_add_mod_noop((a + b) % 0x1_0000_0000_0000_0000, c, 0x1_0000_0000_0000_0000);
    lemma_mod_mod_same(a + b);
    lemma_small_mod(a as nat, 0x1_0000_0000_0000_0000);
}

proof fn lemma_mod_mod_same(x: int)
    ensures
        (x % 0x1_0000_0000_0000_0000) % 0x1_0000_0000_0000_0000 == x % 0x1_0000_0000_0000_0000,
{
}

/// There is a count for every pair.
pub open spec fn full(c: Counts) -> bool {
    c.tallies.len() == LearnSettings::PAIR_COUNT
}

proof fn lemma_sum_at_least_zero(parts: Seq<Counts>, value: spec_fn(Counts) -> int)
    requires
        forall|c: Counts| #[trigger] value(c) >= 0,
    ensures
        sum_of(parts, value) >= 0,
    decreases parts.len(),
{
    if parts.len() > 0 {
        lemma_sum_at_least_zero(parts.drop_last(), value);
    }
}

/// Merges add up: after any series of them a counter holds what it held at the
/// start and what the parts hold together, past the greatest value from zero
/// again.
pub proof fn law_merges_add_up(start: Counts, parts: Seq<Counts>)
    requires
        full(start),
    ensures
        full(after_merges(start, parts)),
        forall|p: int|
            0 <= p < LearnSettings::PAIR_COUNT ==> #[trigger] after_merges(start, parts).tallies[p]
                == wrap_add(start.tallies[p], sum_of(parts, tally_at(p))),
        after_merges(start, parts).pairs == wrap_add(start.pairs, sum_of(parts, pairs_in())),
        after_merges(start, parts).bytes == wrap_add(start.bytes, sum_of(parts, bytes_in())),
        after_merges(start, parts).files == wrap_add(start.files, sum_of(parts, files_in())),
    decreases parts.len(),
{
    if parts.len() == 0 {
        assert forall|p: int| 0 <= p < LearnSettings::PAIR_COUNT implies #[trigger] after_merges(
            start,
            parts,
        ).tallies[p] == wrap_add(start.tallies[p], sum_of(parts, tally_at(p))) by {
            lemma_wrap_twice(start.tallies[p], 0, 0);
        }
        lemma_wrap_twice(start.pairs, 0, 0);
        lemma_wrap_twice(start.bytes, 0, 0);
        lemma_wrap_twice(start.files, 0, 0);
    } else {
        let head = parts.drop_last();
        let last = parts.last();
        law_merges_add_up(start, head);
        let before = after_merges(start, head);
        assert forall|p: int| 0 <= p < LearnSettings::PAIR_COUNT implies #[trigger] after_merges(
            start,
            parts,
        ).tallies[p] == wrap_add(start.tallies[p], sum_of(parts, tally_at(p))) by {
            lemma_sum_at_least_zero(head, tally_at(p));
            assert(before.tallies[p] == wrap_add(start.tallies[p], sum_of(head, tally_at(p))));
            lemma_wrap_twice(
                start.tallies[p],
                sum_of(head, tally_at(p)),
                last.tallies[p] as int,
            );
        }
        lemma_sum_at_least_zero(head, pairs_in());
        lemma_sum_at_least_zero(head, bytes_in());
        lemma_sum_at_least_zero(head, files_in());
        lemma_wrap_twice(start.pairs, sum_of(head, pairs_in()), last.pairs as int);
        lemma_wrap_twice(start.bytes, sum_of(head, bytes_in()), last.bytes as int);
        lemma_wrap_twice(start.files, sum_of(head, files_in()), last.files as int);
    }
}

proof fn lemma_sum_is_fold(parts: Seq<Counts>, value: spec_fn(Counts) -> int, from: int)
    ensures
        parts.fold_right(|c: Counts, acc: int| acc + value(c), from) == from + sum_of(
            parts,
            value,
        ),
    decreases parts.len(),
{
    let f = |c: Counts, acc: int| acc + value(c);
    if parts.len() > 0 {
        lemma_sum_is_fold(parts.drop_last(), value, f(parts.last(), from));
    }
}

proof fn lemma_sum_in_any_order(
    a: Seq<Counts>,
    b: Seq<Counts>,
    value: spec_fn(Counts) -> int,
)
    requires
        a.to_multiset() == b.to_multiset(),
    ensures
        sum_of(a, value) == sum_of(b, value),
{
    let f = |c: Counts, acc: int| acc + value(c);
    lemma_sum_is_fold(a, value, 0);
    lemma_sum_is_fold(b, value, 0);
    assert(commutative_foldr(f));
    lemma_fold_right_permutation(a, b, f, 0);
}

/// The order of merges does not matter: the same parts in any order leave the
/// same counts and totals.
pub proof fn law_merges_in_any_order(start: Counts, a: Seq<Counts>, b: Seq<Counts>)
    requires
        full(start),
        a.to_multiset() == b.to_multiset(),
    ensures
        after_merges(start, a) == after_merges(start, b),
{
    law_merges_add_up(start, a);
    law_merges_add_up(start, b);
    let x = after_merges(start, a);
    let y = after_merges(start, b);
    assert forall|p: int| 0 <= p < LearnSettings::PAIR_COUNT implies #[trigger] x.tallies[p]
        == y.tallies[p] by {
        lemma_sum_in_any_order(a, b, tally_at(p));
    }
    lemma_sum_in_any_order(a, b, pairs_in());
    lemma_sum_in_any_order(a, b, bytes_in());
    lemma_sum_in_any_order(a, b, files_in());
    assert(x.tallies =~= y.tallies);
}

/// Merging tallies gathered into one does what merging each of them does, as
/// long as no count runs over.
pub proof fn law_gathered_tallies_merge_the_same(start: Counts, a: Counts, b: Counts)
    requires
        forall|p: int|
            0 <= p < LearnSettings::PAIR_COUNT ==> #[trigger] a.tallies[p] + b.tallies[p]
                <= u32::MAX,
        a.pairs + b.pairs <= u64::MAX,
        a.bytes + b.bytes <= u64::MAX,
        a.files + b.files <= u64::MAX,
    ensures
        plus(plus(start, a), b) == plus(start, gathered(a, b)),
{
    let x = plus(plus(start, a), b);
    let y = plus(start, gathered(a, b));
    assert forall|p: int| 0 <= p < LearnSettings::PAIR_COUNT implies #[trigger] x.tallies[p]
        == y.tallies[p] by {
        assert(a.tallies[p] + b.tallies[p] <= u32::MAX);
        lemma_wrap_twice(start.tallies[p], a.tallies[p] as int, b.tallies[p] as int);
    }
    lemma_wrap_twice(start.pairs, a.pairs as int, b.pairs as int);
    lemma_wrap_twice(start.bytes, a.bytes as int, b.bytes as int);
    lemma_wrap_twice(start.files, a.files as int, b.files as int);
    assert(x.tallies =~= y.tallies);
}

/// No value holds a pair more often than one call counts.
pub open spec fn countable(texts: Seq<Seq<u8>>) -> bool {
    forall|i: int, p: int|
        0 <= i < texts.len() && 0 <= p < LearnSettings::PAIR_COUNT ==> #[trigger] pair_count(
            texts[i],
            p,
        ) <= u32::MAX && texts[i].len() <= u64::MAX
}

pub proof fn lemma_one_value(text: Seq<u8>, p: int)
    ensures
        batch_count(seq![text], p) == pair_count(text, p),
        batch_total(seq![text]) == pair_total(text),
        batch_bytes(seq![text]) == text.len(),
{
    let none = Seq::<Seq<u8>>::empty();
    assert(seq![text].drop_last() =~= none);
    assert(batch_count(none, p) == 0 && batch_total(none) == 0 && batch_bytes(none) == 0);
}

/// The values by themselves, as merges.
pub open spec fn value_parts(texts: Seq<Seq<u8>>) -> Seq<Counts> {
    Seq::new(texts.len(), |i: int| batch_counts(seq![texts[i]]))
}

proof fn lemma_value_sums(texts: Seq<Seq<u8>>, p: int)
    requires
        countable(texts),
        0 <= p < LearnSettings::PAIR_COUNT,
    ensures
        sum_of(value_parts(texts), tally_at(p)) == batch_count(texts, p),
        sum_of(value_parts(texts), pairs_in()) == batch_total(texts),
        sum_of(value_parts(texts), bytes_in()) == batch_bytes(texts),
        sum_of(value_parts(texts), files_in()) == 0,
    decreases texts.len(),
{
    if texts.len() > 0 {
        let head = texts.drop_last();
        let parts = value_parts(texts);
        assert(countable(head)) by {
            assert forall|i: int, q: int|
                0 <= i < head.len() && 0 <= q < LearnSettings::PAIR_COUNT implies #[trigger]
                pair_count(head[i], q) <= u32::MAX && head[i].len() <= u64::MAX by {
                assert(pair_count(texts[i], q) <= u32::MAX);
            }
        }
        lemma_value_sums(head, p);
        assert(parts.drop_last() =~= value_parts(head));
        assert(parts.last() == batch_counts(seq![texts.last()]));
        lemma_one_value(texts.last(), p);
        assert(pair_count(texts[texts.len() - 1], p) <= u32::MAX);
    }
}

/// After a series of values, each counted by a call of its own, every count is
/// what it was at the start and how often the pair stands in the values
/// together, and so are the totals.
pub proof fn law_values_add_up(start: Counts, texts: Seq<Seq<u8>>)
    requires
        full(start),
        countable(texts),
    ensures
        forall|p: int|
            0 <= p < LearnSettings::PAIR_COUNT ==> #[trigger] after_merges(
                start,
                value_parts(texts),
            ).tallies[p] == wrap_add(start.tallies[p], batch_count(texts, p) as int),
        after_merges(start, value_parts(texts)).pairs == wrap_add(
            start.pairs,
            batch_total(texts) as int,
        ),
        after_merges(start, value_parts(texts)).bytes == wrap_add(
            start.bytes,
            batch_bytes(texts) as int,
        ),
        after_merges(start, value_parts(texts)).files == start.files,
{
    let parts = value_parts(texts);
    law_merges_add_up(start, parts);
    assert forall|p: int| 0 <= p < LearnSettings::PAIR_COUNT implies #[trigger] after_merges(
        start,
        parts,
    ).tallies[p] == wrap_add(start.tallies[p], batch_count(texts, p) as int) by {
        lemma_value_sums(texts, p);
    }
    lemma_value_sums(texts, 0);
    lemma_wrap_twice(start.files, 0, 0);
}

/// A batch counts what its values do when each is counted by a call of its
/// own, as long as the batch counts no pair more often than it can.
pub proof fn law_batch_counts_as_its_values(start: Counts, texts: Seq<Seq<u8>>)
    requires
        full(start),
        forall|p: int|
            0 <= p < LearnSettings::PAIR_COUNT ==> #[trigger] batch_count(texts, p) <= u32::MAX,
        batch_bytes(texts) <= u64::MAX,
    ensures
        plus(start, batch_counts(texts)) == after_merges(start, value_parts(texts)),
{
    assert(countable(texts)) by {
        assert forall|i: int, p: int|
            0 <= i < texts.len() && 0 <= p < LearnSettings::PAIR_COUNT implies #[trigger]
            pair_count(texts[i], p) <= u32::MAX && texts[i].len() <= u64::MAX by {
            lemma_value_within(texts, i, p);
            assert(batch_count(texts, p) <= u32::MAX);
        }
    }
    lemma_total_within(texts);
    law_values_add_up(start, texts);
    let x = plus(start, batch_counts(texts));
    let y = after_merges(start, value_parts(texts));
    assert forall|p: int| 0 <= p < LearnSettings::PAIR_COUNT implies #[trigger] x.tallies[p]
        == y.tallies[p] by {
        assert(batch_count(texts, p) <= u32::MAX);
    }
    law_merges_add_up(start, value_parts(texts));
    lemma_wrap_twice(start.files, 0, 0);
    assert(x.tallies =~= y.tallies);
}

proof fn lemma_value_within(texts: Seq<Seq<u8>>, i: int, p: int)
    requires
        0 <= i < texts.len(),
    ensures
        pair_count(texts[i], p) <= batch_count(texts, p),
        texts[i].len() <= batch_bytes(texts),
    decreases texts.len(),
{
    if i < texts.len() - 1 {
        lemma_value_within(texts.drop_last(), i, p);
    }
}

proof fn lemma_total_within(texts: Seq<Seq<u8>>)
    ensures
        batch_total(texts) <= batch_bytes(texts),
    decreases texts.len(),
{
    if texts.len() > 0 {
        lemma_total_within(texts.drop_last());
    }
}

/// How often the first `n` pairs stand in the texts, together.
pub open spec fn all_pairs(texts: Seq<Seq<u8>>, n: int) -> nat
    decreases n,
{
    if n <= 0 {
        0
    } else {
        all_pairs(texts, n - 1) + batch_count(texts, n - 1)
    }
}

/// How often the first `n` pairs stand in the text, together.
spec fn text_pairs(text: Seq<u8>, n: int) -> nat
    decreases n,
{
    if n <= 0 {
        0
    } else {
        text_pairs(text, n - 1) + pair_count(text, n - 1)
    }
}

proof fn lemma_text_pairs_step(text: Seq<u8>, n: int)
    requires
        text.len() >= 2,
    ensures
        text_pairs(text, n) == text_pairs(text.drop_last(), n) + (if pair_at(
            text[text.len() - 2],
            text.last(),
        ) < n {
            1nat
        } else {
            0
        }),
    decreases n,
{
    if n > 0 {
        lemma_text_pairs_step(text, n - 1);
    }
}

proof fn lemma_text_pairs(text: Seq<u8>, n: int)
    ensures
        text.len() < 2 ==> text_pairs(text, n) == 0,
        n == LearnSettings::PAIR_COUNT ==> text_pairs(text, n) == pair_total(text),
    decreases text.len(), n,
{
    if text.len() < 2 {
        if n > 0 {
            lemma_text_pairs(text, n - 1);
        }
    } else if n == LearnSettings::PAIR_COUNT {
        lemma_text_pairs_step(text, n);
        lemma_text_pairs(text.drop_last(), n);
    }
}

proof fn lemma_all_pairs_step(texts: Seq<Seq<u8>>, n: int)
    ensures
        texts.len() == 0 ==> all_pairs(texts, n) == 0,
        texts.len() > 0 ==> all_pairs(texts, n) == all_pairs(texts.drop_last(), n) + text_pairs(
            texts.last(),
            n,
        ),
    decreases n,
{
    if n > 0 {
        lemma_all_pairs_step(texts, n - 1);
    }
}

/// The pair total is the sum of all pair counts.
pub proof fn law_pair_total_is_the_sum(texts: Seq<Seq<u8>>)
    ensures
        all_pairs(texts, LearnSettings::PAIR_COUNT as int) == batch_total(texts),
    decreases texts.len(),
{
    let n = LearnSettings::PAIR_COUNT as int;
    lemma_all_pairs_step(texts, n);
    if texts.len() > 0 {
        law_pair_total_is_the_sum(texts.drop_last());
        lemma_text_pairs(texts.last(), n);
    }
}

/// The first `n` counts, together.
pub open spec fn tallies_sum(tallies: Seq<u64>, n: int) -> int
    decreases n,
{
    if n <= 0 {
        0
    } else {
        tallies_sum(tallies, n - 1) + tallies[n - 1]
    }
}

/// Nothing counted.
pub open spec fn nothing_counted() -> Counts {
    Counts {
        tallies: Seq::new(LearnSettings::PAIR_COUNT as nat, |p: int| 0u64),
        pairs: 0,
        bytes: 0,
        files: 0,
    }
}

proof fn lemma_tallies_sum(tallies: Seq<u64>, texts: Seq<Seq<u8>>, n: int)
    requires
        n <= LearnSettings::PAIR_COUNT,
        forall|p: int|
            0 <= p < LearnSettings::PAIR_COUNT ==> #[trigger] tallies[p] == batch_count(texts, p),
    ensures
        tallies_sum(tallies, n) == all_pairs(texts, n),
    decreases n,
{
    if n > 0 {
        lemma_tallies_sum(tallies, texts, n - 1);
    }
}

/// How a counter or a tally came about.
pub ghost enum Build {
    /// New, with nothing counted.
    New,
    /// Values counted in one batch on top; one value is a batch of one.
    Values(Box<Build>, Seq<Seq<u8>>),
    /// Another one merged into it.
    Merge(Box<Build>, Box<Build>),
    /// Another tally gathered into it.
    Gather(Box<Build>, Box<Build>),
}

/// What it holds.
pub open spec fn held(b: Build) -> Counts
    decreases b,
{
    match b {
        Build::New => nothing_counted(),
        Build::Values(c, texts) => plus(held(*c), batch_counts(texts)),
        Build::Merge(c, o) => plus(held(*c), held(*o)),
        Build::Gather(c, o) => gathered(held(*c), held(*o)),
    }
}

/// The values that went into it.
pub open spec fn values(b: Build) -> Seq<Seq<u8>>
    decreases b,
{
    match b {
        Build::New => Seq::empty(),
        Build::Values(c, texts) => values(*c) + texts,
        Build::Merge(c, o) => values(*c) + values(*o),
        Build::Gather(c, o) => values(*c) + values(*o),
    }
}

/// No batch and no tally counts a pair more often than it can.
pub open spec fn unsaturated(b: Build) -> bool
    decreases b,
{
    match b {
        Build::New => true,
        Build::Values(c, texts) => unsaturated(*c) && within_batch(texts),
        Build::Merge(c, o) => unsaturated(*c) && unsaturated(*o),
        Build::Gather(c, o) => unsaturated(*c) && unsaturated(*o) && within_batch(values(b)),
    }
}

/// No pair stands in the texts more often than a batch counts.
pub open spec fn within_batch(texts: Seq<Seq<u8>>) -> bool {
    forall|p: int|
        0 <= p < LearnSettings::PAIR_COUNT ==> #[trigger] batch_count(texts, p) <= u32::MAX
}

/// The counts of the texts, none of which ran over.
pub open spec fn counts_exactly(c: Counts, texts: Seq<Seq<u8>>) -> bool {
    &&& full(c)
    &&& forall|p: int|
        0 <= p < LearnSettings::PAIR_COUNT ==> #[trigger] c.tallies[p] == batch_count(texts, p)
    &&& c.pairs == batch_total(texts)
    &&& c.bytes == batch_bytes(texts)
    &&& c.files == 0
}

proof fn lemma_sum_exact(a: Counts, b: Counts, s: Seq<Seq<u8>>, u: Seq<Seq<u8>>)
    requires
        counts_exactly(a, s),
        counts_exactly(b, u),
        batch_bytes(s + u) <= u64::MAX,
    ensures
        counts_exactly(plus(a, b), s + u),
        within_batch(s + u) ==> counts_exactly(gathered(a, b), s + u),
{
    lemma_total_within(s + u);
    law_grouping_does_not_count(s, u, 0);
    assert forall|p: int| 0 <= p < LearnSettings::PAIR_COUNT implies #[trigger] plus(a, b).tallies[p]
        == batch_count(s + u, p) && (within_batch(s + u) ==> gathered(a, b).tallies[p]
        == batch_count(s + u, p)) by {
        law_grouping_does_not_count(s, u, p);
        lemma_batch_count_within(s + u, p);
        assert(a.tallies[p] == batch_count(s, p));
        assert(b.tallies[p] == batch_count(u, p));
        assert(within_batch(s + u) ==> batch_count(s + u, p) <= u32::MAX);
    }
    assert forall|p: int|
        within_batch(s + u) && 0 <= p < LearnSettings::PAIR_COUNT implies #[trigger] gathered(
        a,
        b,
    ).tallies[p] == batch_count(s + u, p) by {
        assert(plus(a, b).tallies[p] == batch_count(s + u, p));
    }
}

/// However a counter came about, from values, batches, tallies and other
/// counters, it holds what its values hold, as long as nothing runs over.
pub proof fn law_counts_are_those_of_the_values(b: Build)
    requires
        unsaturated(b),
        batch_bytes(values(b)) <= u64::MAX,
    ensures
        counts_exactly(held(b), values(b)),
    decreases b,
{
    match b {
        Build::New => {},
        Build::Values(c, texts) => {
            law_grouping_does_not_count(values(*c), texts, 0);
            law_counts_are_those_of_the_values(*c);
            lemma_total_within(texts);
            assert(counts_exactly(batch_counts(texts), texts)) by {
                assert forall|p: int| 0 <= p < LearnSettings::PAIR_COUNT implies #[trigger]
                    batch_counts(texts).tallies[p] == batch_count(texts, p) by {
                    assert(batch_count(texts, p) <= u32::MAX);
                }
            }
            lemma_sum_exact(held(*c), batch_counts(texts), values(*c), texts);
        },
        Build::Merge(c, o) => {
            law_grouping_does_not_count(values(*c), values(*o), 0);
            law_counts_are_those_of_the_values(*c);
            law_counts_are_those_of_the_values(*o);
            lemma_sum_exact(held(*c), held(*o), values(*c), values(*o));
        },
        Build::Gather(c, o) => {
            law_grouping_does_not_count(values(*c), values(*o), 0);
            law_counts_are_those_of_the_values(*c);
            law_counts_are_those_of_the_values(*o);
            lemma_sum_exact(held(*c), held(*o), values(*c), values(*o));
        },
    }
}

/// However a counter came about, the pairs it reports are the sum of its counts
/// and the pairs of its values, as long as nothing runs over. A value of one
/// byte or none adds nothing.
pub proof fn law_pairs_are_the_counts(b: Build)
    requires
        unsaturated(b),
        batch_bytes(values(b)) <= u64::MAX,
    ensures
        held(b).pairs == tallies_sum(held(b).tallies, LearnSettings::PAIR_COUNT as int),
        held(b).pairs == batch_total(values(b)),
{
    law_counts_are_those_of_the_values(b);
    lemma_tallies_sum(held(b).tallies, values(b), LearnSettings::PAIR_COUNT as int);
    law_pair_total_is_the_sum(values(b));
}

proof fn lemma_batch_count_within(texts: Seq<Seq<u8>>, p: int)
    ensures
        batch_count(texts, p) <= batch_total(texts),
    decreases texts.len(),
{
    if texts.len() > 0 {
        lemma_batch_count_within(texts.drop_last(), p);
        lemma_pair_count_bound(texts.last(), p);
    }
}

} // verus!
