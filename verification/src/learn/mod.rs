//! Byte-pair counting that trains a weight table, one value at a time so no
//! pair straddles two inputs.

pub mod batch;
pub mod checkpoint;
pub mod mint;
pub mod pairs;
pub mod run;
pub mod settings;
pub mod sums;

use vstd::prelude::*;

use crate::learn::batch::BatchCounts;
use crate::learn::pairs::{batch_bytes, batch_count, batch_total, contents};
use crate::learn::settings::LearnSettings;
use crate::learn::sums::{batch_counts, nothing_counted, plus, Counts};
use crate::num::{add_wrapping, clamp_u32, clamp_u64, wrap_add};
use crate::table::pair_at;

verus! {

/// Why a checkpoint does not restore.
#[derive(Debug, Clone, PartialEq, Eq)]
#[non_exhaustive]
pub enum LearnError {
    /// The snapshot is not one little-endian `u64` per pair.
    InvalidSnapshotLen {
        /// The byte length a snapshot has.
        expected: usize,
        /// The byte length this one has.
        actual: usize,
    },
    /// The counter already holds counts.
    NotFresh,
}

/// A byte-pair frequency counter. Counts and totals wrap around past their
/// greatest value.
pub struct BigramCounter {
    counts: Vec<u64>,
    pairs_processed: u64,
    bytes_processed: u64,
    files_processed: u64,
}

/// A count of zero for every pair.
pub open spec fn no_counts() -> Seq<u64> {
    Seq::new(LearnSettings::PAIR_COUNT as nat, |i: int| 0u64)
}

impl Default for BigramCounter {
    fn default() -> (counter: BigramCounter)
        ensures
            counter.wf(),
            counter.fresh(),
            counter.totals() == nothing_counted(),
    {
        BigramCounter::new()
    }
}

impl BigramCounter {
    /// There is a count for every pair.
    pub open spec fn wf(self) -> bool {
        self.tallies().len() == LearnSettings::PAIR_COUNT
    }

    /// The counts by pair.
    pub closed spec fn tallies(self) -> Seq<u64> {
        self.counts@
    }

    /// The byte pairs counted so far.
    pub closed spec fn pairs(self) -> u64 {
        self.pairs_processed
    }

    /// The bytes counted so far.
    pub closed spec fn bytes(self) -> u64 {
        self.bytes_processed
    }

    /// The files or shards completed so far.
    pub closed spec fn files(self) -> u64 {
        self.files_processed
    }

    /// The counts and totals.
    pub open spec fn totals(self) -> Counts {
        Counts {
            tallies: self.tallies(),
            pairs: self.pairs(),
            bytes: self.bytes(),
            files: self.files(),
        }
    }

    /// Nothing has been counted.
    pub open spec fn fresh(self) -> bool {
        self.tallies() == no_counts() && self.pairs() == 0 && self.bytes() == 0 && self.files()
            == 0
    }

    /// A counter with every count at zero.
    #[must_use]
    pub fn new() -> (counter: BigramCounter)
        ensures
            counter.wf(),
            counter.fresh(),
            counter.totals() == nothing_counted(),
    {
        let mut counts: Vec<u64> = Vec::new();
        while counts.len() < LearnSettings::PAIR_COUNT
            invariant
                counts@.len() <= LearnSettings::PAIR_COUNT,
                forall|i: int| 0 <= i < counts@.len() ==> #[trigger] counts@[i] == 0,
            decreases LearnSettings::PAIR_COUNT - counts@.len(),
        {
            counts.push(0);
        }
        assert(counts@ =~= no_counts());
        assert(counts@ =~= nothing_counted().tallies);
        BigramCounter { counts, pairs_processed: 0, bytes_processed: 0, files_processed: 0 }
    }

    /// Fold a completed staging counter into this one.
    pub fn merge(&mut self, other: &BigramCounter)
        requires
            old(self).wf(),
            other.wf(),
        ensures
            final(self).wf(),
            forall|p: int|
                0 <= p < LearnSettings::PAIR_COUNT ==> #[trigger] final(self).tallies()[p]
                    == wrap_add(old(self).tallies()[p], other.tallies()[p] as int),
            final(self).pairs() == wrap_add(old(self).pairs(), other.pairs() as int),
            final(self).bytes() == wrap_add(old(self).bytes(), other.bytes() as int),
            final(self).files() == wrap_add(old(self).files(), other.files() as int),
            final(self).totals() == plus(old(self).totals(), other.totals()),
    {
        let ghost start = self.counts@;
        let mut idx: usize = 0;
        while idx < LearnSettings::PAIR_COUNT
            invariant
                idx <= LearnSettings::PAIR_COUNT,
                start.len() == LearnSettings::PAIR_COUNT,
                self.counts@.len() == LearnSettings::PAIR_COUNT,
                other.counts@.len() == LearnSettings::PAIR_COUNT,
                forall|p: int|
                    0 <= p < idx ==> #[trigger] self.counts@[p] == wrap_add(
                        start[p],
                        other.counts@[p] as int,
                    ),
                forall|p: int|
                    idx <= p < LearnSettings::PAIR_COUNT ==> #[trigger] self.counts@[p] == start[p],
                self.pairs_processed == old(self).pairs_processed,
                self.bytes_processed == old(self).bytes_processed,
                self.files_processed == old(self).files_processed,
            decreases LearnSettings::PAIR_COUNT - idx,
        {
            self.add_pair_by_index(idx, other.counts[idx]);
            idx = idx + 1;
        }
        self.pairs_processed = add_wrapping(self.pairs_processed, other.pairs_processed);
        self.bytes_processed = add_wrapping(self.bytes_processed, other.bytes_processed);
        self.files_processed = add_wrapping(self.files_processed, other.files_processed);
        assert(self.tallies() =~= plus(old(self).totals(), other.totals()).tallies);
    }

    /// Count the byte pairs of one value.
    pub fn process(&mut self, content: &[u8])
        requires
            old(self).wf(),
        ensures
            final(self).wf(),
            counted(*old(self), *final(self), seq![content@]),
            final(self).totals() == plus(old(self).totals(), batch_counts(seq![content@])),
    {
        let mut values: Vec<&[u8]> = Vec::new();
        values.push(content);
        let _ = self.process_batch(values.as_slice());
        assert(contents(values@) =~= seq![content@]);
    }

    /// Count many values and merge them once, with no pair counted across two
    /// values. The result is the number of bytes counted.
    pub fn process_batch(&mut self, values: &[&[u8]]) -> (bytes: u64)
        requires
            old(self).wf(),
        ensures
            final(self).wf(),
            bytes == clamp_u64(batch_bytes(contents(values@)) as int),
            counted(*old(self), *final(self), contents(values@)),
            final(self).totals() == plus(old(self).totals(), batch_counts(contents(values@))),
    {
        let ghost texts = contents(values@);
        let mut batch = BatchCounts::new();
        let mut i: usize = 0;
        assert(texts.take(0) =~= Seq::<Seq<u8>>::empty());
        while i < values.len()
            invariant
                i <= values@.len(),
                texts == contents(values@),
                batch.wf(),
                forall|p: int|
                    0 <= p < LearnSettings::PAIR_COUNT ==> #[trigger] batch.tallies()[p]
                        == clamp_u32(batch_count(texts.take(i as int), p) as int),
                batch.pair_sum() == clamp_u64(batch_total(texts.take(i as int)) as int),
                batch.byte_sum() == clamp_u64(batch_bytes(texts.take(i as int)) as int),
            decreases values@.len() - i,
        {
            let ghost before = batch;
            batch.count_buffer(values[i]);
            i = i + 1;
            proof {
                assert(texts.take(i as int).drop_last() =~= texts.take(i - 1));
                assert(texts.take(i as int).last() == values@[i - 1]@);
                assert forall|p: int| 0 <= p < LearnSettings::PAIR_COUNT implies #[trigger]
                    batch.tallies()[p] == clamp_u32(batch_count(texts.take(i as int), p) as int) by {
                    assert(before.tallies()[p] == clamp_u32(
                        batch_count(texts.take(i - 1), p) as int,
                    ));
                }
            }
        }
        assert(texts.take(i as int) =~= texts);
        let bytes: u64 = batch.bytes();
        self.merge_batch(&batch);
        assert(self.tallies() =~= plus(old(self).totals(), batch_counts(texts)).tallies);
        bytes
    }

    /// Record completed files or shards.
    pub fn add_files(&mut self, n: u64)
        ensures
            final(self).tallies() == old(self).tallies(),
            final(self).pairs() == old(self).pairs(),
            final(self).bytes() == old(self).bytes(),
            final(self).files() == wrap_add(old(self).files(), n as int),
    {
        self.files_processed = add_wrapping(self.files_processed, n);
    }

    /// Byte pairs counted so far.
    #[must_use]
    pub fn pairs_processed(&self) -> (n: u64)
        ensures
            n == self.pairs(),
    {
        self.pairs_processed
    }

    /// Bytes counted so far.
    #[must_use]
    pub fn bytes_processed(&self) -> (n: u64)
        ensures
            n == self.bytes(),
    {
        self.bytes_processed
    }

    /// Files or shards completed so far.
    #[must_use]
    pub fn files_processed(&self) -> (n: u64)
        ensures
            n == self.files(),
    {
        self.files_processed
    }

    /// The count of one byte pair.
    #[must_use]
    pub fn count(&self, c1: u8, c2: u8) -> (n: u64)
        requires
            self.wf(),
        ensures
            n == self.tallies()[pair_at(c1, c2)],
    {
        self.counts[LearnSettings::pair_index(c1, c2)]
    }

    fn merge_batch(&mut self, batch: &BatchCounts)
        requires
            old(self).wf(),
            batch.wf(),
        ensures
            final(self).wf(),
            forall|p: int|
                0 <= p < LearnSettings::PAIR_COUNT ==> #[trigger] final(self).tallies()[p]
                    == wrap_add(old(self).tallies()[p], batch.tallies()[p] as int),
            final(self).pairs() == wrap_add(old(self).pairs(), batch.pair_sum() as int),
            final(self).bytes() == wrap_add(old(self).bytes(), batch.byte_sum() as int),
            final(self).files() == old(self).files(),
    {
        let ghost start = self.counts@;
        let counts = batch.pair_counts();
        let mut idx: usize = 0;
        while idx < LearnSettings::PAIR_COUNT
            invariant
                idx <= LearnSettings::PAIR_COUNT,
                start.len() == LearnSettings::PAIR_COUNT,
                self.counts@.len() == LearnSettings::PAIR_COUNT,
                counts@.len() == LearnSettings::PAIR_COUNT,
                forall|p: int|
                    0 <= p < idx ==> #[trigger] self.counts@[p] == wrap_add(
                        start[p],
                        counts@[p] as int,
                    ),
                forall|p: int|
                    idx <= p < LearnSettings::PAIR_COUNT ==> #[trigger] self.counts@[p] == start[p],
                self.pairs_processed == old(self).pairs_processed,
                self.bytes_processed == old(self).bytes_processed,
                self.files_processed == old(self).files_processed,
            decreases LearnSettings::PAIR_COUNT - idx,
        {
            self.add_pair_by_index(idx, counts[idx] as u64);
            idx = idx + 1;
        }
        self.pairs_processed = add_wrapping(self.pairs_processed, batch.pairs_counted());
        self.bytes_processed = add_wrapping(self.bytes_processed, batch.bytes());
    }

    /// Add to the count at a position, where there is one.
    pub fn add_pair_by_index(&mut self, idx: usize, n: u64)
        requires
            old(self).wf(),
        ensures
            final(self).tallies() == if idx < LearnSettings::PAIR_COUNT {
                old(self).tallies().update(
                    idx as int,
                    wrap_add(old(self).tallies()[idx as int], n as int),
                )
            } else {
                old(self).tallies()
            },
            final(self).pairs() == old(self).pairs(),
            final(self).bytes() == old(self).bytes(),
            final(self).files() == old(self).files(),
    {
        if idx < LearnSettings::PAIR_COUNT {
            let sum: u64 = add_wrapping(self.counts[idx], n);
            self.counts.set(idx, sum);
        }
    }

    /// Add to the count of one pair.
    pub fn add_pair(&mut self, c1: u8, c2: u8, n: u64)
        requires
            old(self).wf(),
        ensures
            final(self).tallies() == old(self).tallies().update(
                pair_at(c1, c2),
                wrap_add(old(self).tallies()[pair_at(c1, c2)], n as int),
            ),
            final(self).pairs() == old(self).pairs(),
            final(self).bytes() == old(self).bytes(),
            final(self).files() == old(self).files(),
    {
        self.add_pair_by_index(LearnSettings::pair_index(c1, c2), n);
    }
}

/// The counter after the texts, each counted on its own; one batch counts no
/// pair more than `u32::MAX` times.
pub open spec fn counted(
    before: BigramCounter,
    after: BigramCounter,
    texts: Seq<Seq<u8>>,
) -> bool {
    &&& forall|p: int|
        0 <= p < LearnSettings::PAIR_COUNT ==> #[trigger] after.tallies()[p] == wrap_add(
            before.tallies()[p],
            clamp_u32(batch_count(texts, p) as int),
        )
    &&& after.pairs() == wrap_add(before.pairs(), clamp_u64(batch_total(texts) as int))
    &&& after.bytes() == wrap_add(before.bytes(), clamp_u64(batch_bytes(texts) as int))
    &&& after.files() == before.files()
}

} // verus!
