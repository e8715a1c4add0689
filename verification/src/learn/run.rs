//! Counters of a training run.
//!
//! Feed text through a [`LocalTally`] (plain `u32` counts), merge tallies into
//! the run's [`BigramCounter`], then serialize the learned table with
//! [`BigramCounter::to_table_bytes`]. The output parses with
//! [`crate::table::WeightTable::from_bytes`].
//!
//! Counting is per value: no bigram may straddle two inputs, so the learned
//! table is a function of the data alone, not of batch geometry.

use vstd::prelude::*;

use crate::endian::{le_bytes, lemma_le_len};
use crate::learn::mint::{compute_weight, minted, rarity, tuning_off};
use crate::learn::no_counts;
use crate::learn::pairs::{lemma_pair_count_grows, lemma_pair_count_step, pair_count, pair_total};
use crate::learn::settings::LearnSettings;
use crate::learn::sums::{batch_counts, gathered, lemma_one_value, nothing_counted, plus, Counts};
use crate::num::{add_wrapping, clamp_u32, wrap_add};
use crate::query::gram::copy_range;
use crate::table::{
    checksum, crc32, encoded, lemma_weight_bytes, magic, pair_at, table_data, table_header,
    weight_bytes, HEADER_BYTES, PAIRS, TABLE_BINARY_SIZE,
};

verus! {

/// Per-batch accumulator using plain `u32` counts.
///
/// Merged into the run's [`BigramCounter`] once per batch, keeping the hot
/// counting loop free of contention.
pub struct LocalTally {
    counts: Vec<u32>,
    pairs: u64,
    bytes: u64,
}

/// Byte-pair frequency counter of a run. Counts and totals wrap around past
/// their greatest value.
///
/// Beyond the bigram table it aggregates run statistics: `bytes_processed` is
/// decompressed text counted, `downloaded_bytes` is compressed bytes pulled
/// over the network, `files_processed` is completed files.
pub struct BigramCounter {
    counts: Vec<u64>,
    pairs_processed: u64,
    bytes_processed: u64,
    downloaded_bytes: u64,
    files_processed: u64,
}

/// A tally with one more value counted holds what both hold.
proof fn lemma_counted_on(before: LocalTally, after: LocalTally, text: Seq<u8>)
    requires
        before.wf(),
        after.wf(),
        before.has_room(text),
        forall|p: int|
            0 <= p < LearnSettings::PAIR_COUNT ==> #[trigger] after.tallies()[p]
                == before.tallies()[p] + pair_count(text, p),
        after.pair_sum() == before.pair_sum() + pair_total(text),
        after.byte_sum() == before.byte_sum() + text.len(),
    ensures
        after.totals() == plus(before.totals(), batch_counts(seq![text])),
{
    let sum = plus(before.totals(), batch_counts(seq![text]));
    assert forall|p: int| 0 <= p < LearnSettings::PAIR_COUNT implies #[trigger]
        after.totals().tallies[p] == sum.tallies[p] by {
        lemma_one_value(text, p);
        assert(before.tallies()[p] + pair_count(text, p) <= u32::MAX);
        assert(after.tallies()[p] == before.tallies()[p] + pair_count(text, p));
    }
    lemma_one_value(text, 0);
    assert(after.totals().tallies =~= sum.tallies);
}

impl Default for LocalTally {
    fn default() -> (tally: LocalTally)
        ensures
            tally.wf(),
            tally.empty(),
            tally.totals() == nothing_counted(),
    {
        LocalTally::new()
    }
}

impl LocalTally {
    /// There is a count for every pair.
    pub open spec fn wf(self) -> bool {
        self.tallies().len() == LearnSettings::PAIR_COUNT
    }

    /// The counts by pair.
    pub closed spec fn tallies(self) -> Seq<u32> {
        self.counts@
    }

    /// The pairs counted so far.
    pub closed spec fn pair_sum(self) -> u64 {
        self.pairs
    }

    /// The bytes counted so far.
    pub closed spec fn byte_sum(self) -> u64 {
        self.bytes
    }

    /// The counts and totals; a tally completes no files.
    pub open spec fn totals(self) -> Counts {
        Counts {
            tallies: Seq::new(self.tallies().len(), |p: int| self.tallies()[p] as u64),
            pairs: self.pair_sum(),
            bytes: self.byte_sum(),
            files: 0,
        }
    }

    /// Nothing has been counted.
    pub open spec fn empty(self) -> bool {
        &&& forall|p: int| 0 <= p < LearnSettings::PAIR_COUNT ==> #[trigger] self.tallies()[p] == 0
        &&& self.pair_sum() == 0
        &&& self.byte_sum() == 0
    }

    /// The text can be counted without any count running over.
    pub open spec fn has_room(self, text: Seq<u8>) -> bool {
        &&& forall|p: int|
            0 <= p < LearnSettings::PAIR_COUNT ==> #[trigger] self.tallies()[p] + pair_count(text, p)
                <= u32::MAX
        &&& self.pair_sum() + pair_total(text) <= u64::MAX
        &&& self.byte_sum() + text.len() <= u64::MAX
    }

    /// Fresh tally with all counts zero.
    #[must_use]
    pub fn new() -> (tally: LocalTally)
        ensures
            tally.wf(),
            tally.empty(),
            tally.totals() == nothing_counted(),
    {
        let mut counts: Vec<u32> = Vec::new();
        while counts.len() < LearnSettings::PAIR_COUNT
            invariant
                counts@.len() <= LearnSettings::PAIR_COUNT,
                forall|i: int| 0 <= i < counts@.len() ==> #[trigger] counts@[i] == 0,
            decreases LearnSettings::PAIR_COUNT - counts@.len(),
        {
            counts.push(0);
        }
        let tally = LocalTally { counts, pairs: 0, bytes: 0 };
        assert(tally.totals().tallies =~= nothing_counted().tallies);
        tally
    }

    /// Count every overlapping byte pair in one value's bytes.
    ///
    /// The rolling index carries the previous byte, so each byte is loaded
    /// once.
    pub fn count_buffer(&mut self, buf: &[u8])
        requires
            old(self).wf(),
            old(self).has_room(buf@),
        ensures
            final(self).wf(),
            forall|p: int|
                0 <= p < LearnSettings::PAIR_COUNT ==> #[trigger] final(self).tallies()[p] == old(
                    self,
                ).tallies()[p] + pair_count(buf@, p),
            final(self).pair_sum() == old(self).pair_sum() + pair_total(buf@),
            final(self).byte_sum() == old(self).byte_sum() + buf@.len(),
            final(self).totals() == plus(old(self).totals(), batch_counts(seq![buf@])),
    {
        self.bytes = self.bytes + buf.len() as u64;
        if buf.len() < 2 {
            proof {
                lemma_counted_on(*old(self), *self, buf@);
            }
            return;
        }
        let ghost start = self.counts@;
        let mut previous: u8 = buf[0];
        let mut i: usize = 1;
        while i < buf.len()
            invariant
                1 <= i <= buf@.len(),
                previous == buf@[i - 1],
                start.len() == LearnSettings::PAIR_COUNT,
                self.counts@.len() == LearnSettings::PAIR_COUNT,
                forall|p: int|
                    0 <= p < LearnSettings::PAIR_COUNT ==> #[trigger] self.counts@[p] == start[p]
                        + pair_count(buf@.take(i as int), p),
                forall|p: int|
                    0 <= p < LearnSettings::PAIR_COUNT ==> #[trigger] start[p] + pair_count(buf@, p)
                        <= u32::MAX,
                self.pairs == old(self).pairs,
                self.bytes == old(self).bytes + buf@.len(),
            decreases buf@.len() - i,
        {
            let b: u8 = buf[i];
            let idx: usize = LearnSettings::pair_index(previous, b);
            let ghost before = self.counts@;
            proof {
                lemma_pair_count_step(buf@, i + 1, idx as int);
                lemma_pair_count_grows(buf@, i + 1, buf@.len() as int, idx as int);
                assert(buf@.take(buf@.len() as int) =~= buf@);
                assert(before[idx as int] == start[idx as int] + pair_count(
                    buf@.take(i as int),
                    idx as int,
                ));
                assert(start[idx as int] + pair_count(buf@, idx as int) <= u32::MAX);
            }
            let n: u32 = self.counts[idx];
            self.counts.set(idx, n + 1);
            previous = b;
            i = i + 1;
            assert forall|p: int| 0 <= p < LearnSettings::PAIR_COUNT implies #[trigger]
                self.counts@[p] == start[p] + pair_count(buf@.take(i as int), p) by {
                lemma_pair_count_step(buf@, i as int, p);
                assert(before[p] == start[p] + pair_count(buf@.take(i - 1), p));
            }
        }
        assert(buf@.take(i as int) =~= buf@);
        self.pairs = self.pairs + (buf.len() - 1) as u64;
        proof {
            lemma_counted_on(*old(self), *self, buf@);
        }
    }

    /// Total bytes counted so far.
    #[must_use]
    pub fn bytes(&self) -> (bytes: u64)
        ensures
            bytes == self.byte_sum(),
    {
        self.bytes
    }

    /// Merge another tally's counts into this one, used when decoding batches
    /// in a background task and folding the result back into a parent tally to
    /// preserve exactly-once semantics. Counts stop at their greatest value.
    pub fn add_from(&mut self, other: &LocalTally)
        requires
            old(self).wf(),
            other.wf(),
            old(self).pair_sum() + other.pair_sum() <= u64::MAX,
            old(self).byte_sum() + other.byte_sum() <= u64::MAX,
        ensures
            final(self).wf(),
            forall|p: int|
                0 <= p < LearnSettings::PAIR_COUNT ==> #[trigger] final(self).tallies()[p]
                    == clamp_u32(old(self).tallies()[p] + other.tallies()[p]),
            final(self).pair_sum() == old(self).pair_sum() + other.pair_sum(),
            final(self).byte_sum() == old(self).byte_sum() + other.byte_sum(),
            final(self).totals() == gathered(old(self).totals(), other.totals()),
    {
        let ghost start = self.counts@;
        let mut i: usize = 0;
        while i < LearnSettings::PAIR_COUNT
            invariant
                i <= LearnSettings::PAIR_COUNT,
                start.len() == LearnSettings::PAIR_COUNT,
                self.counts@.len() == LearnSettings::PAIR_COUNT,
                other.counts@.len() == LearnSettings::PAIR_COUNT,
                forall|p: int|
                    0 <= p < i ==> #[trigger] self.counts@[p] == clamp_u32(
                        start[p] + other.counts@[p],
                    ),
                forall|p: int|
                    i <= p < LearnSettings::PAIR_COUNT ==> #[trigger] self.counts@[p] == start[p],
                self.pairs == old(self).pairs,
                self.bytes == old(self).bytes,
            decreases LearnSettings::PAIR_COUNT - i,
        {
            let sum: u32 = match self.counts[i].checked_add(other.counts[i]) {
                Some(sum) => sum,
                None => u32::MAX,
            };
            self.counts.set(i, sum);
            i = i + 1;
        }
        self.pairs = self.pairs + other.pairs;
        self.bytes = self.bytes + other.bytes;
        assert(self.totals().tallies =~= gathered(old(self).totals(), other.totals()).tallies);
    }
}

impl Default for BigramCounter {
    fn default() -> (counter: BigramCounter)
        ensures
            counter.wf(),
            counter.fresh(),
            counter.totals() == nothing_counted(),
    {
        BigramCounter::new()
    }
}

impl BigramCounter {
    /// There is a count for every pair.
    pub open spec fn wf(self) -> bool {
        self.tallies().len() == LearnSettings::PAIR_COUNT
    }

    /// The counts by pair.
    pub closed spec fn tallies(self) -> Seq<u64> {
        self.counts@
    }

    /// The byte pairs counted so far.
    pub closed spec fn pairs(self) -> u64 {
        self.pairs_processed
    }

    /// The text bytes counted so far.
    pub closed spec fn bytes(self) -> u64 {
        self.bytes_processed
    }

    /// The compressed bytes downloaded so far.
    pub closed spec fn downloaded(self) -> u64 {
        self.downloaded_bytes
    }

    /// The files completed so far.
    pub closed spec fn files(self) -> u64 {
        self.files_processed
    }

    /// The counts and totals.
    pub open spec fn totals(self) -> Counts {
        Counts {
            tallies: self.tallies(),
            pairs: self.pairs(),
            bytes: self.bytes(),
            files: self.files(),
        }
    }

    /// Nothing has been counted.
    pub open spec fn fresh(self) -> bool {
        self.tallies() == no_counts() && self.pairs() == 0 && self.bytes() == 0
            && self.downloaded() == 0 && self.files() == 0
    }

    /// Fresh counter with all counts zero.
    #[must_use]
    pub fn new() -> (counter: BigramCounter)
        ensures
            counter.wf(),
            counter.fresh(),
            counter.totals() == nothing_counted(),
    {
        let mut counts: Vec<u64> = Vec::new();
        while counts.len() < LearnSettings::PAIR_COUNT
            invariant
                counts@.len() <= LearnSettings::PAIR_COUNT,
                forall|i: int| 0 <= i < counts@.len() ==> #[trigger] counts@[i] == 0,
            decreases LearnSettings::PAIR_COUNT - counts@.len(),
        {
            counts.push(0);
        }
        assert(counts@ =~= no_counts());
        assert(counts@ =~= nothing_counted().tallies);
        BigramCounter {
            counts,
            pairs_processed: 0,
            bytes_processed: 0,
            downloaded_bytes: 0,
            files_processed: 0,
        }
    }

    /// Fold a tally's counts and totals into the counter.
    pub fn merge(&mut self, tally: &LocalTally)
        requires
            old(self).wf(),
            tally.wf(),
        ensures
            final(self).wf(),
            forall|p: int|
                0 <= p < LearnSettings::PAIR_COUNT ==> #[trigger] final(self).tallies()[p]
                    == wrap_add(old(self).tallies()[p], tally.tallies()[p] as int),
            final(self).pairs() == wrap_add(old(self).pairs(), tally.pair_sum() as int),
            final(self).bytes() == wrap_add(old(self).bytes(), tally.byte_sum() as int),
            final(self).downloaded() == old(self).downloaded(),
            final(self).files() == old(self).files(),
            final(self).totals() == plus(old(self).totals(), tally.totals()),
    {
        let ghost start = self.counts@;
        let mut idx: usize = 0;
        while idx < LearnSettings::PAIR_COUNT
            invariant
                idx <= LearnSettings::PAIR_COUNT,
                start.len() == LearnSettings::PAIR_COUNT,
                self.counts@.len() == LearnSettings::PAIR_COUNT,
                tally.counts@.len() == LearnSettings::PAIR_COUNT,
                forall|p: int|
                    0 <= p < idx ==> #[trigger] self.counts@[p] == wrap_add(
                        start[p],
                        tally.counts@[p] as int,
                    ),
                forall|p: int|
                    idx <= p < LearnSettings::PAIR_COUNT ==> #[trigger] self.counts@[p] == start[p],
                self.pairs_processed == old(self).pairs_processed,
                self.bytes_processed == old(self).bytes_processed,
                self.downloaded_bytes == old(self).downloaded_bytes,
                self.files_processed == old(self).files_processed,
            decreases LearnSettings::PAIR_COUNT - idx,
        {
            let sum: u64 = add_wrapping(self.counts[idx], tally.counts[idx] as u64);
            self.counts.set(idx, sum);
            idx = idx + 1;
        }
        self.pairs_processed = add_wrapping(self.pairs_processed, tally.pairs);
        self.bytes_processed = add_wrapping(self.bytes_processed, tally.bytes);
        assert(self.tallies() =~= plus(old(self).totals(), tally.totals()).tallies);
    }

    /// Count one value's bytes directly (convenience over a one-shot tally).
    pub fn process(&mut self, content: &[u8])
        requires
            old(self).wf(),
            forall|p: int|
                0 <= p < LearnSettings::PAIR_COUNT ==> #[trigger] pair_count(content@, p)
                    <= u32::MAX,
        ensures
            final(self).wf(),
            forall|p: int|
                0 <= p < LearnSettings::PAIR_COUNT ==> #[trigger] final(self).tallies()[p]
                    == wrap_add(old(self).tallies()[p], pair_count(content@, p) as int),
            final(self).pairs() == wrap_add(old(self).pairs(), pair_total(content@) as int),
            final(self).bytes() == wrap_add(old(self).bytes(), content@.len() as int),
            final(self).downloaded() == old(self).downloaded(),
            final(self).files() == old(self).files(),
            final(self).totals() == plus(old(self).totals(), batch_counts(seq![content@])),
    {
        let mut tally = LocalTally::new();
        let len: usize = content.len();
        assert(len as int <= u64::MAX);
        assert forall|p: int| 0 <= p < LearnSettings::PAIR_COUNT implies #[trigger]
            tally.tallies()[p] + pair_count(content@, p) <= u32::MAX by {}
        tally.count_buffer(content);
        self.merge(&tally);
        proof {
            assert forall|p: int| 0 <= p < LearnSettings::PAIR_COUNT implies #[trigger]
                batch_counts(seq![content@]).tallies[p] == pair_count(content@, p) by {
                lemma_one_value(content@, p);
                assert(pair_count(content@, p) <= u32::MAX);
            }
            lemma_one_value(content@, 0);
            assert(self.tallies() =~= plus(
                old(self).totals(),
                batch_counts(seq![content@]),
            ).tallies);
        }
    }

    /// Record `n` completed files.
    pub fn inc_files(&mut self, n: u64)
        ensures
            final(self).files() == wrap_add(old(self).files(), n as int),
            final(self).unchanged_but_files(*old(self)),
    {
        self.files_processed = add_wrapping(self.files_processed, n);
    }

    /// Everything but the file total is as it was.
    pub open spec fn unchanged_but_files(self, before: BigramCounter) -> bool {
        self.tallies() == before.tallies() && self.pairs() == before.pairs() && self.bytes()
            == before.bytes() && self.downloaded() == before.downloaded()
    }

    /// Record `n` compressed bytes downloaded.
    pub fn add_downloaded(&mut self, n: u64)
        ensures
            final(self).downloaded() == wrap_add(old(self).downloaded(), n as int),
            final(self).tallies() == old(self).tallies(),
            final(self).pairs() == old(self).pairs(),
            final(self).bytes() == old(self).bytes(),
            final(self).files() == old(self).files(),
    {
        self.downloaded_bytes = add_wrapping(self.downloaded_bytes, n);
    }

    /// Compressed bytes downloaded so far.
    #[must_use]
    pub fn downloaded_bytes(&self) -> (n: u64)
        ensures
            n == self.downloaded(),
    {
        self.downloaded_bytes
    }

    /// Byte pairs counted so far.
    #[must_use]
    pub fn pairs_processed(&self) -> (n: u64)
        ensures
            n == self.pairs(),
    {
        self.pairs_processed
    }

    /// Decompressed text bytes counted so far.
    #[must_use]
    pub fn bytes_processed(&self) -> (n: u64)
        ensures
            n == self.bytes(),
    {
        self.bytes_processed
    }

    /// Files completed so far.
    #[must_use]
    pub fn files_processed(&self) -> (n: u64)
        ensures
            n == self.files(),
    {
        self.files_processed
    }

    /// Current count for one byte pair.
    #[must_use]
    pub fn count(&self, c1: u8, c2: u8) -> (n: u64)
        requires
            self.wf(),
        ensures
            n == self.tallies()[pair_at(c1, c2)],
    {
        self.counts[LearnSettings::pair_index(c1, c2)]
    }

    /// Snapshot all counts in index order, for checkpointing.
    #[must_use]
    pub fn counts_vec(&self) -> (counts: Vec<u64>)
        ensures
            counts@ == self.tallies(),
    {
        let mut counts: Vec<u64> = Vec::new();
        let mut i: usize = 0;
        while i < self.counts.len()
            invariant
                i <= self.counts@.len(),
                counts@ == self.counts@.take(i as int),
            decreases self.counts@.len() - i,
        {
            counts.push(self.counts[i]);
            i = i + 1;
            assert(counts@ =~= self.counts@.take(i as int));
        }
        assert(self.counts@.take(i as int) =~= self.counts@);
        counts
    }

    /// Add `n` to one byte pair's count, for checkpoint restore.
    pub fn add(&mut self, c1: u8, c2: u8, n: u64)
        requires
            old(self).wf(),
        ensures
            final(self).tallies() == old(self).tallies().update(
                pair_at(c1, c2),
                wrap_add(old(self).tallies()[pair_at(c1, c2)], n as int),
            ),
            final(self).pairs() == old(self).pairs(),
            final(self).bytes() == old(self).bytes(),
            final(self).downloaded() == old(self).downloaded(),
            final(self).files() == old(self).files(),
    {
        let idx: usize = LearnSettings::pair_index(c1, c2);
        let sum: u64 = add_wrapping(self.counts[idx], n);
        self.counts.set(idx, sum);
    }

    /// Add `n` to the pair total, for checkpoint restore.
    pub fn add_pairs(&mut self, n: u64)
        ensures
            final(self).pairs() == wrap_add(old(self).pairs(), n as int),
            final(self).tallies() == old(self).tallies(),
            final(self).bytes() == old(self).bytes(),
            final(self).downloaded() == old(self).downloaded(),
            final(self).files() == old(self).files(),
    {
        self.pairs_processed = add_wrapping(self.pairs_processed, n);
    }

    /// Add `n` to the byte total, for checkpoint restore.
    pub fn add_bytes(&mut self, n: u64)
        ensures
            final(self).bytes() == wrap_add(old(self).bytes(), n as int),
            final(self).tallies() == old(self).tallies(),
            final(self).pairs() == old(self).pairs(),
            final(self).downloaded() == old(self).downloaded(),
            final(self).files() == old(self).files(),
    {
        self.bytes_processed = add_wrapping(self.bytes_processed, n);
    }

    /// Add `n` to the file total, for checkpoint restore.
    pub fn add_files(&mut self, n: u64)
        ensures
            final(self).files() == wrap_add(old(self).files(), n as int),
            final(self).unchanged_but_files(*old(self)),
    {
        self.files_processed = add_wrapping(self.files_processed, n);
    }

    /// Serialize the learned weight table (weight = `total_pairs / count`,
    /// `u32::MAX` for unseen pairs) in the `SPNG` binary format that
    /// [`crate::table::WeightTable::from_bytes`] loads.
    #[must_use]
    pub fn to_table_bytes(&self) -> (bytes: Vec<u8>)
        requires
            self.wf(),
        ensures
            bytes@ == encoded(minted(self.tallies(), self.pairs(), tuning_off()), None),
    {
        let ghost weights = minted(self.tallies(), self.pairs(), tuning_off());
        let mut buf: Vec<u8> = Vec::new();
        while buf.len() < TABLE_BINARY_SIZE
            invariant
                buf@.len() <= TABLE_BINARY_SIZE,
                forall|i: int| 0 <= i < buf@.len() ==> #[trigger] buf@[i] == 0,
            decreases TABLE_BINARY_SIZE - buf@.len(),
        {
            buf.push(0);
        }
        write_header(&mut buf);
        write_weights(&self.counts, self.pairs_processed, &mut buf);
        proof {
            assert forall|i: int| 0 <= i < PAIRS implies #[trigger] weights[i] == rarity(
                self.pairs(),
                self.tallies()[i],
            ) by {}
            lemma_same_weights(weights, self.tallies(), self.pairs(), PAIRS as int);
        }
        write_checksum(&mut buf);
        proof {
            let none = Option::<Seq<char>>::None;
            let data = table_data(weights, none);
            lemma_weight_bytes(weights, PAIRS as int);
            lemma_le_len(1, 4);
            lemma_le_len(crc32(data) as nat, 4);
            lemma_le_len(0, 4);
            assert(data =~= weight_bytes(weights, PAIRS as int));
            assert(le_bytes(0, 4) =~= seq![0u8, 0u8, 0u8, 0u8]) by {
                reveal_with_fuel(le_bytes, 5);
            }
            let header = table_header(none, data);
            assert(header =~= buf@.subrange(0, 16));
            assert(buf@ =~= header + data);
        }
        buf
    }
}

/// Write the number at `at`, lowest byte first.
fn put_at(buf: &mut Vec<u8>, at: usize, n: u32)
    requires
        at + 4 <= old(buf)@.len(),
    ensures
        final(buf)@.len() == old(buf)@.len(),
        final(buf)@.subrange(at as int, at + 4) == le_bytes(n as nat, 4),
        forall|i: int|
            0 <= i < old(buf)@.len() && !(at <= i < at + 4) ==> #[trigger] final(buf)@[i] == old(
                buf,
            )@[i],
{
    let len: usize = buf.len();
    assert(at + 4 <= len);
    buf.set(at, (n % 256) as u8);
    buf.set(at + 1, (n / 256 % 256) as u8);
    buf.set(at + 2, (n / 65536 % 256) as u8);
    buf.set(at + 3, (n / 16777216) as u8);
    proof {
        reveal_with_fuel(le_bytes, 5);
        let n = n as nat;
        assert(n / 256 / 256 == n / 65536);
        assert(n / 256 / 256 / 256 == n / 16777216);
        assert(n / 16777216 < 256);
        assert(buf@.subrange(at as int, at + 4) =~= le_bytes(n, 4));
    }
}

/// Write the magic and the version.
fn write_header(buf: &mut Vec<u8>)
    requires
        old(buf)@.len() == TABLE_BINARY_SIZE,
    ensures
        final(buf)@.len() == TABLE_BINARY_SIZE,
        final(buf)@.subrange(0, 4) == magic(),
        final(buf)@.subrange(4, 8) == le_bytes(1, 4),
        forall|i: int|
            8 <= i < TABLE_BINARY_SIZE ==> #[trigger] final(buf)@[i] == old(buf)@[i],
{
    buf.set(0, 0x53);
    buf.set(1, 0x50);
    buf.set(2, 0x4E);
    buf.set(3, 0x47);
    let ghost before = buf@;
    put_at(buf, 4, 1);
    assert(buf@.subrange(0, 4) =~= magic());
}

/// The first `n` counts as weights in little-endian bytes.
spec fn rarity_bytes(counts: Seq<u64>, total: u64, n: int) -> Seq<u8>
    decreases n,
{
    if n <= 0 {
        Seq::empty()
    } else {
        rarity_bytes(counts, total, n - 1) + le_bytes(rarity(total, counts[n - 1]) as nat, 4)
    }
}

proof fn lemma_same_weights(weights: Seq<u32>, counts: Seq<u64>, total: u64, n: int)
    requires
        n <= weights.len(),
        forall|i: int| 0 <= i < n ==> #[trigger] weights[i] == rarity(total, counts[i]),
    ensures
        rarity_bytes(counts, total, n) == weight_bytes(weights, n),
    decreases n,
{
    if n > 0 {
        lemma_same_weights(weights, counts, total, n - 1);
    }
}

proof fn lemma_rarity_len(counts: Seq<u64>, total: u64, n: int)
    ensures
        n >= 0 ==> rarity_bytes(counts, total, n).len() == 4 * n,
    decreases n,
{
    if n > 0 {
        lemma_rarity_len(counts, total, n - 1);
        lemma_le_len(rarity(total, counts[n - 1]) as nat, 4);
    }
}

/// Write the weights behind the header.
fn write_weights(counts: &Vec<u64>, total: u64, buf: &mut Vec<u8>)
    requires
        counts@.len() == PAIRS,
        old(buf)@.len() == TABLE_BINARY_SIZE,
    ensures
        final(buf)@.len() == TABLE_BINARY_SIZE,
        final(buf)@.subrange(16, TABLE_BINARY_SIZE as int) == rarity_bytes(
            counts@,
            total,
            PAIRS as int,
        ),
        forall|i: int| 0 <= i < 16 ==> #[trigger] final(buf)@[i] == old(buf)@[i],
{
    let mut i: usize = 0;
    assert(buf@.subrange(16, 16) =~= Seq::<u8>::empty());
    while i < PAIRS
        invariant
            i <= PAIRS == counts@.len(),
            buf@.len() == TABLE_BINARY_SIZE,
            buf@.subrange(16, 16 + 4 * i) == rarity_bytes(counts@, total, i as int),
            forall|k: int| 0 <= k < 16 ==> #[trigger] buf@[k] == old(buf)@[k],
        decreases PAIRS - i,
    {
        let w: u32 = compute_weight(total, counts[i]);
        let ghost before = buf@;
        put_at(buf, HEADER_BYTES + 4 * i, w);
        i = i + 1;
        proof {
            let at = 16 + 4 * (i - 1);
            lemma_rarity_len(counts@, total, i - 1);
            assert(buf@.subrange(16, at) =~= before.subrange(16, at));
            assert(buf@.subrange(16, at + 4) =~= buf@.subrange(16, at) + buf@.subrange(at, at + 4));
        }
    }
}

/// Write the checksum of what stands behind the header.
fn write_checksum(buf: &mut Vec<u8>)
    requires
        old(buf)@.len() == TABLE_BINARY_SIZE,
    ensures
        final(buf)@.len() == TABLE_BINARY_SIZE,
        final(buf)@.subrange(8, 12) == le_bytes(
            crc32(old(buf)@.subrange(16, TABLE_BINARY_SIZE as int)) as nat,
            4,
        ),
        forall|i: int|
            0 <= i < TABLE_BINARY_SIZE && !(8 <= i < 12) ==> #[trigger] final(buf)@[i] == old(
                buf,
            )@[i],
{
    let data = copy_range(buf.as_slice(), HEADER_BYTES, buf.len());
    let crc: u32 = checksum(data.as_slice());
    put_at(buf, 8, crc);
}

} // verus!
