//! Per-batch byte-pair counts.

use vstd::prelude::*;

use crate::learn::pairs::{lemma_pair_count_step, pair_count, pair_total};
use crate::learn::settings::LearnSettings;
use crate::num::{add_to_max_u64, clamp_u32, clamp_u64};
use crate::table::pair_at;

verus! {

/// Per-batch accumulator using plain `u32` counts.
///
/// Merge batch counts into [`super::BigramCounter`] only after the batch or row
/// group has completed. This keeps the hot counting loop free of contention
/// and preserves exactly-once retry semantics.
pub struct BatchCounts {
    counts: Vec<u32>,
    pairs: u64,
    bytes: u64,
}

impl Default for BatchCounts {
    fn default() -> (batch: BatchCounts)
        ensures
            batch.wf(),
            batch.tallies() == Seq::new(LearnSettings::PAIR_COUNT as nat, |i: int| 0u32),
            batch.pair_sum() == 0,
            batch.byte_sum() == 0,
    {
        BatchCounts::new()
    }
}

impl BatchCounts {
    /// There is a count for every pair.
    pub open spec fn wf(self) -> bool {
        self.tallies().len() == LearnSettings::PAIR_COUNT
    }

    /// The counts by pair.
    pub closed spec fn tallies(self) -> Seq<u32> {
        self.counts@
    }

    /// The pairs counted so far.
    pub closed spec fn pair_sum(self) -> u64 {
        self.pairs
    }

    /// The bytes counted so far.
    pub closed spec fn byte_sum(self) -> u64 {
        self.bytes
    }

    /// Fresh batch with all counts zero.
    #[must_use]
    pub fn new() -> (batch: BatchCounts)
        ensures
            batch.wf(),
            batch.tallies() == Seq::new(LearnSettings::PAIR_COUNT as nat, |i: int| 0u32),
            batch.pair_sum() == 0,
            batch.byte_sum() == 0,
    {
        let mut counts: Vec<u32> = Vec::new();
        while counts.len() < LearnSettings::PAIR_COUNT
            invariant
                counts@.len() <= LearnSettings::PAIR_COUNT,
                forall|i: int| 0 <= i < counts@.len() ==> #[trigger] counts@[i] == 0,
            decreases LearnSettings::PAIR_COUNT - counts@.len(),
        {
            counts.push(0);
        }
        assert(counts@ =~= Seq::new(LearnSettings::PAIR_COUNT as nat, |i: int| 0u32));
        BatchCounts { counts, pairs: 0, bytes: 0 }
    }

    /// Count every overlapping byte pair in one value's bytes; counts stop at
    /// their greatest value.
    ///
    /// The value boundary is semantic: no pair is counted across calls.
    pub fn count_buffer(&mut self, buf: &[u8])
        requires
            old(self).wf(),
        ensures
            final(self).wf(),
            forall|p: int|
                0 <= p < LearnSettings::PAIR_COUNT ==> #[trigger] final(self).tallies()[p]
                    == clamp_u32(old(self).tallies()[p] + pair_count(buf@, p)),
            final(self).pair_sum() == clamp_u64(old(self).pair_sum() + pair_total(buf@)),
            final(self).byte_sum() == clamp_u64((old(self).byte_sum() + buf@.len()) as int),
    {
        self.bytes = add_to_max_u64(self.bytes, buf.len() as u64);
        if buf.len() < 2 {
            return;
        }
        let ghost start = self.counts@;
        let mut previous: u8 = buf[0];
        let mut i: usize = 1;
        assert forall|p: int| 0 <= p < LearnSettings::PAIR_COUNT implies #[trigger] self.counts@[p]
            == clamp_u32(start[p] + pair_count(buf@.take(1), p)) by {}
        while i < buf.len()
            invariant
                1 <= i <= buf@.len(),
                previous == buf@[i - 1],
                start.len() == LearnSettings::PAIR_COUNT,
                self.counts@.len() == LearnSettings::PAIR_COUNT,
                forall|p: int|
                    0 <= p < LearnSettings::PAIR_COUNT ==> #[trigger] self.counts@[p] == clamp_u32(
                        start[p] + pair_count(buf@.take(i as int), p),
                    ),
                self.pairs == old(self).pairs,
                self.bytes == clamp_u64((old(self).bytes + buf@.len()) as int),
            decreases buf@.len() - i,
        {
            let b: u8 = buf[i];
            let idx: usize = LearnSettings::pair_index(previous, b);
            let ghost before = self.counts@;
            let n: u32 = self.counts[idx];
            self.counts.set(
                idx,
                if n < u32::MAX {
                    n + 1
                } else {
                    n
                },
            );
            previous = b;
            i = i + 1;
            assert forall|p: int| 0 <= p < LearnSettings::PAIR_COUNT implies #[trigger]
                self.counts@[p] == clamp_u32(start[p] + pair_count(buf@.take(i as int), p)) by {
                lemma_pair_count_step(buf@, i as int, p);
                assert(before[p] == clamp_u32(start[p] + pair_count(buf@.take(i - 1), p)));
            }
        }
        assert(buf@.take(i as int) =~= buf@);
        self.pairs = add_to_max_u64(self.pairs, (buf.len() - 1) as u64);
    }

    /// Text bytes counted so far.
    #[must_use]
    pub fn bytes(&self) -> (bytes: u64)
        ensures
            bytes == self.byte_sum(),
    {
        self.bytes
    }

    /// The counts by pair.
    pub fn pair_counts(&self) -> (counts: &Vec<u32>)
        ensures
            counts@ == self.tallies(),
    {
        &self.counts
    }

    /// The pairs counted so far.
    pub fn pairs_counted(&self) -> (pairs: u64)
        ensures
            pairs == self.pair_sum(),
    {
        self.pairs
    }

    /// The count of one byte pair.
    pub fn count(&self, c1: u8, c2: u8) -> (n: u32)
        requires
            self.wf(),
        ensures
            n == self.tallies()[pair_at(c1, c2)],
    {
        self.counts[LearnSettings::pair_index(c1, c2)]
    }
}

} // verus!
