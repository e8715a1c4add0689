//! Checkpoints of a counter.

use vstd::prelude::*;

use crate::endian::{
    get_le, law_le_round_trip, le_bytes, le_value, lemma_le_len, lemma_le_limits, put_le,
};
use crate::learn::settings::LearnSettings;
use crate::learn::{no_counts, BigramCounter, LearnError};

verus! {

/// The first `n` counts in little-endian bytes.
pub open spec fn count_bytes(counts: Seq<u64>, n: int) -> Seq<u8>
    decreases n,
{
    if n <= 0 {
        Seq::empty()
    } else {
        count_bytes(counts, n - 1) + le_bytes(counts[n - 1] as nat, 8)
    }
}

/// The counts as little-endian `u64` bytes.
pub open spec fn snapshot_of(counts: Seq<u64>) -> Seq<u8> {
    count_bytes(counts, counts.len() as int)
}

/// The counts that a snapshot holds.
pub open spec fn counts_in(snapshot: Seq<u8>) -> Seq<u64> {
    Seq::new(
        LearnSettings::PAIR_COUNT as nat,
        |i: int| le_value(snapshot.subrange(8 * i, 8 * i + 8)) as u64,
    )
}

proof fn lemma_count_bytes(counts: Seq<u64>, n: int)
    requires
        0 <= n <= counts.len(),
    ensures
        count_bytes(counts, n).len() == 8 * n,
        forall|i: int|
            0 <= i < n ==> #[trigger] count_bytes(counts, n).subrange(8 * i, 8 * i + 8) == le_bytes(
                counts[i] as nat,
                8,
            ),
    decreases n,
{
    if n > 0 {
        let head = count_bytes(counts, n - 1);
        let last = le_bytes(counts[n - 1] as nat, 8);
        lemma_count_bytes(counts, n - 1);
        lemma_le_len(counts[n - 1] as nat, 8);
        assert forall|i: int| 0 <= i < n implies #[trigger] count_bytes(counts, n).subrange(
            8 * i,
            8 * i + 8,
        ) == le_bytes(counts[i] as nat, 8) by {
            if i < n - 1 {
                assert((head + last).subrange(8 * i, 8 * i + 8) =~= head.subrange(8 * i, 8 * i + 8));
            } else {
                assert((head + last).subrange(8 * i, 8 * i + 8) =~= last);
            }
        }
    }
}

/// A snapshot holds the counts it was taken of, so what one counter's snapshot
/// restores into a fresh counter is the first counter's counts.
pub proof fn law_snapshot_round_trip(counts: Seq<u64>)
    requires
        counts.len() == LearnSettings::PAIR_COUNT,
    ensures
        snapshot_of(counts).len() == LearnSettings::SNAPSHOT_BYTES,
        counts_in(snapshot_of(counts)) == counts,
{
    let n = LearnSettings::PAIR_COUNT as int;
    lemma_count_bytes(counts, n);
    lemma_le_limits();
    let bytes = snapshot_of(counts);
    assert forall|i: int| 0 <= i < n implies #[trigger] counts_in(bytes)[i] == counts[i] by {
        assert(bytes.subrange(8 * i, 8 * i + 8) == le_bytes(counts[i] as nat, 8));
        law_le_round_trip(counts[i] as nat, 8);
    }
    assert(counts_in(bytes) =~= counts);
}

impl BigramCounter {
    /// All pair counts as little-endian `u64` bytes for checkpointing.
    #[must_use]
    pub fn snapshot(&self) -> (out: Vec<u8>)
        requires
            self.wf(),
        ensures
            out@ == snapshot_of(self.tallies()),
    {
        let mut out: Vec<u8> = Vec::new();
        let mut i: usize = 0;
        while i < LearnSettings::PAIR_COUNT
            invariant
                i <= LearnSettings::PAIR_COUNT == self.counts@.len(),
                out@ == count_bytes(self.counts@, i as int),
            decreases LearnSettings::PAIR_COUNT - i,
        {
            put_le(&mut out, self.counts[i], 8);
            i = i + 1;
        }
        out
    }

    /// Restore a checkpoint into a fresh counter; the counter is left as it is
    /// when the snapshot is invalid or the counter is not fresh.
    pub fn restore(&mut self, snapshot: &[u8], pairs: u64, bytes: u64, files: u64) -> (out: Result<
        (),
        LearnError,
    >)
        requires
            old(self).wf(),
        ensures
            final(self).wf(),
            match out {
                Ok(_) => {
                    &&& snapshot@.len() == LearnSettings::SNAPSHOT_BYTES
                    &&& old(self).fresh()
                    &&& final(self).tallies() == counts_in(snapshot@)
                    &&& final(self).pairs() == pairs
                    &&& final(self).bytes() == bytes
                    &&& final(self).files() == files
                },
                Err(err) => {
                    &&& *final(self) == *old(self)
                    &&& if snapshot@.len() != LearnSettings::SNAPSHOT_BYTES {
                        err == (LearnError::InvalidSnapshotLen {
                            expected: LearnSettings::SNAPSHOT_BYTES,
                            actual: snapshot@.len() as usize,
                        })
                    } else {
                        err == LearnError::NotFresh && !old(self).fresh()
                    }
                },
            },
    {
        if snapshot.len() != LearnSettings::SNAPSHOT_BYTES {
            return Err(
                LearnError::InvalidSnapshotLen {
                    expected: LearnSettings::SNAPSHOT_BYTES,
                    actual: snapshot.len(),
                },
            );
        }
        if !self.is_fresh() {
            return Err(LearnError::NotFresh);
        }
        self.restore_counts(snapshot);
        self.pairs_processed = pairs;
        self.bytes_processed = bytes;
        self.files_processed = files;
        Ok(())
    }

    fn restore_counts(&mut self, snapshot: &[u8])
        requires
            old(self).wf(),
            old(self).fresh(),
            snapshot@.len() == LearnSettings::SNAPSHOT_BYTES,
        ensures
            final(self).wf(),
            final(self).tallies() == counts_in(snapshot@),
    {
        let mut idx: usize = 0;
        while idx < LearnSettings::PAIR_COUNT
            invariant
                idx <= LearnSettings::PAIR_COUNT,
                snapshot@.len() == LearnSettings::SNAPSHOT_BYTES,
                self.wf(),
                forall|p: int|
                    0 <= p < idx ==> #[trigger] self.tallies()[p] == counts_in(snapshot@)[p],
                forall|p: int|
                    idx <= p < LearnSettings::PAIR_COUNT ==> #[trigger] self.tallies()[p] == 0,
            decreases LearnSettings::PAIR_COUNT - idx,
        {
            let n: u64 = get_le(snapshot, 8 * idx, 8);
            self.add_pair_by_index(idx, n);
            idx = idx + 1;
        }
        assert(self.tallies() =~= counts_in(snapshot@));
    }

    fn is_fresh(&self) -> (fresh: bool)
        requires
            self.wf(),
        ensures
            fresh == self.fresh(),
    {
        if self.pairs_processed != 0 || self.bytes_processed != 0 || self.files_processed != 0 {
            return false;
        }
        let mut i: usize = 0;
        while i < LearnSettings::PAIR_COUNT
            invariant
                i <= LearnSettings::PAIR_COUNT == self.counts@.len(),
                forall|p: int| 0 <= p < i ==> #[trigger] self.counts@[p] == 0,
            decreases LearnSettings::PAIR_COUNT - i,
        {
            if self.counts[i] != 0 {
                assert(no_counts()[i as int] == 0);
                return false;
            }
            i = i + 1;
        }
        assert(self.counts@ =~= no_counts());
        true
    }
}

} // verus!
