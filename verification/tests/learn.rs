//! Byte-pair counting and the tables it mints.

use std::collections::HashMap;

use sngram::learn::batch::BatchCounts;
use sngram::learn::mint::{
    compute_weight, is_boundary_pair, tune_weight, MintOptions, Tuning,
};
use sngram::learn::{run, BigramCounter, LearnError};
use sngram::table::{TableError, WeightTable};

#[test]
fn learn_empty_counter_produces_valid_table() {
    let c = run::BigramCounter::new();
    let table = WeightTable::from_bytes(&c.to_table_bytes()).unwrap();
    assert_eq!(table.weight(0, 0), u32::MAX);
}

#[test]
fn counts_byte_pairs() {
    let mut c = run::BigramCounter::new();
    c.process(b"aab");
    assert_eq!(c.count(b'a', b'a'), 1);
    assert_eq!(c.count(b'a', b'b'), 1);
    assert_eq!(c.count(b'b', b'a'), 0);
}

#[test]
fn tracks_pairs_and_bytes() {
    let mut c = run::BigramCounter::new();
    c.process(b"hello");
    c.process(b"world");
    assert_eq!(c.pairs_processed(), 8);
    assert_eq!(c.bytes_processed(), 10);
}

#[test]
fn files_tracked_separately() {
    let mut c = run::BigramCounter::new();
    c.inc_files(1);
    c.inc_files(1);
    assert_eq!(c.files_processed(), 2);
}

#[test]
fn no_bigram_straddles_a_value_boundary() {
    // Counting values separately (as the pipeline does, one per row) must
    // never fabricate a bigram across the boundary.
    let mut c = run::BigramCounter::new();
    c.process(b"ab");
    c.process(b"cd");
    assert_eq!(c.count(b'b', b'c'), 0, "no bigram may straddle a boundary");
    assert_eq!(c.count(b'a', b'b'), 1);
    assert_eq!(c.count(b'c', b'd'), 1);
    // Per-value pair total excludes the phantom boundary pair.
    assert_eq!(c.pairs_processed(), 2);
}

#[test]
fn counting_is_independent_of_value_grouping() {
    // However rows are split into batches/row groups, per-value counts sum
    // identically: the table is a function of the data, not the layout.
    let mut one = run::BigramCounter::new();
    one.process(b"aa");
    one.process(b"aa");
    one.process(b"aa");

    let mut split = run::BigramCounter::new();
    for _ in 0..3 {
        split.process(b"aa");
    }

    assert_eq!(one.count(b'a', b'a'), split.count(b'a', b'a'));
    assert_eq!(one.count(b'a', b'a'), 3);
}

#[test]
fn tally_merge_matches_direct() {
    let mut c = run::BigramCounter::new();
    let mut t = run::LocalTally::new();
    let data = b"the quick brown fox jumps over the lazy dog";
    t.count_buffer(data);
    c.merge(&t);

    let mut direct = run::BigramCounter::new();
    for pair in data.windows(2) {
        direct.add(pair[0], pair[1], 1);
    }
    for a in 0u8..=255 {
        for b in 0u8..=255 {
            assert_eq!(c.count(a, b), direct.count(a, b), "mismatch at ({a},{b})");
        }
    }
}

#[test]
fn tally_accumulates_across_buffers() {
    let mut c = run::BigramCounter::new();
    let mut t = run::LocalTally::new();
    t.count_buffer(b"ab");
    t.count_buffer(b"ab");
    c.merge(&t);
    assert_eq!(c.count(b'a', b'b'), 2);
    assert_eq!(c.pairs_processed(), 2);
    assert_eq!(c.bytes_processed(), 4);
}

#[test]
fn frequent_pairs_get_lower_weight() {
    let mut c = run::BigramCounter::new();
    for _ in 0..100 {
        c.process(b"the quick brown fox");
    }
    c.process(b"zqzq");
    let table = WeightTable::from_bytes(&c.to_table_bytes()).unwrap();
    let common = table.weight(b't', b'h');
    let rare = table.weight(b'z', b'q');
    assert!(rare > common, "rare={rare} should be > common={common}");
}

fn corpus() -> Vec<&'static [u8]> {
    vec![
        b"fn main() { let x = 42; }",
        b"the quick brown fox jumps over the lazy dog",
        b"SELECT * FROM users WHERE id = 1;",
        b"\x00\x01\x02\xc8\xff\xfe\x00\x01",
    ]
}

fn reference_counts(corpus: &[&[u8]]) -> (HashMap<(u8, u8), u64>, u64) {
    let mut counts: HashMap<(u8, u8), u64> = HashMap::new();
    let mut total: u64 = 0;
    for row in corpus {
        for pair in row.windows(2) {
            *counts.entry((pair[0], pair[1])).or_default() += 1;
            total += 1;
        }
    }
    (counts, total)
}

fn expected_weight(total: u64, count: u64) -> u32 {
    total
        .checked_div(count)
        .map_or(u32::MAX, |w| w.min(u64::from(u32::MAX)) as u32)
}

fn assert_table_matches_reference(
    table: &WeightTable,
    counts: &HashMap<(u8, u8), u64>,
    total: u64,
) {
    for c1 in 0u8..=255 {
        for c2 in 0u8..=255 {
            let count = counts.get(&(c1, c2)).copied().unwrap_or(0);
            assert_eq!(
                table.weight(c1, c2),
                expected_weight(total, count),
                "weight ({c1},{c2})"
            );
        }
    }
}

#[test]
fn learn_learned_table_matches_independent_reference() {
    let corpus = corpus();
    let (counts, total) = reference_counts(&corpus);
    let mut c = run::BigramCounter::new();
    for row in &corpus {
        c.process(row);
    }
    assert_eq!(
        c.pairs_processed(),
        total,
        "pair total must match reference"
    );
    let table = WeightTable::from_bytes(&c.to_table_bytes()).unwrap();
    assert_table_matches_reference(&table, &counts, total);
}

#[test]
fn short_content_skipped() {
    let mut c = run::BigramCounter::new();
    c.process(b"");
    c.process(b"x");
    assert_eq!(c.pairs_processed(), 0);
}

#[test]
fn no_bigram_straddles_value_boundaries() {
    let mut batch = BatchCounts::new();
    batch.count_buffer(b"ab");
    batch.count_buffer(b"cd");

    assert_eq!(batch.count(b'a', b'b'), 1);
    assert_eq!(batch.count(b'b', b'c'), 0);
    assert_eq!(batch.count(b'c', b'd'), 1);
    assert_eq!(batch.pairs_counted(), 2);
}

#[test]
fn boundary_pair_indices_are_counted() {
    let mut batch = BatchCounts::new();
    batch.count_buffer(&[0, u8::MAX, 0]);

    assert_eq!(batch.count(0, u8::MAX), 1);
    assert_eq!(batch.count(u8::MAX, 0), 1);
    assert_eq!(batch.pairs_counted(), 2);
    assert_eq!(batch.bytes(), 3);
}

#[test]
fn case_seam_discounts_lower_to_upper_only() {
    assert!(is_boundary_pair(b'd', b'C'));
    assert!(!is_boundary_pair(b'D', b'c'));
    assert!(!is_boundary_pair(b'D', b'C'));
    assert!(!is_boundary_pair(b'd', b'c'));
}

#[test]
fn identity_tuning_passes_weights_through() {
    assert_eq!(tune_weight(64, b'a', b'_', Tuning::off()), 64);
}

fn counter_with_corpus() -> BigramCounter {
    let mut counter = BigramCounter::new();
    for _ in 0..50 {
        counter.process(b"sched_clock init\nsched_boost done\nmodule.rs v1.2-rc:3");
    }
    counter
}

#[test]
fn mint_round_trips_version_and_provenance() {
    let counter = counter_with_corpus();
    let options = MintOptions {
        provenance: "corpus=fs-validate;date=2026-07-03;commit=deadbeef",
        tuning: Tuning::default(),
    };
    let table = WeightTable::from_bytes(&counter.mint_table_bytes(&options).unwrap()).unwrap();

    assert_eq!(table.version(), 2);
    assert_eq!(table.provenance(), Some(options.provenance));
}

#[test]
fn mint_rejects_oversized_provenance() {
    let counter = BigramCounter::new();
    let big = "x".repeat(2048);
    let options = MintOptions {
        provenance: &big,
        tuning: Tuning::off(),
    };

    assert!(counter.mint_table_bytes(&options).is_err());
}

#[test]
fn identity_tuning_matches_v1_weights() {
    let counter = counter_with_corpus();
    let v1 = WeightTable::from_bytes(&counter.to_table_bytes()).unwrap();
    let options = MintOptions {
        provenance: "p",
        tuning: Tuning::off(),
    };
    let v2 = WeightTable::from_bytes(&counter.mint_table_bytes(&options).unwrap()).unwrap();

    for a in [b'_', b's', b'c', b'\n', b'.', b'k'] {
        for b in [b'_', b's', b'c', b'\n', b'.', b'k'] {
            assert_eq!(v1.weight(a, b), v2.weight(a, b), "({a},{b})");
        }
    }
}

#[test]
fn boundary_pairs_discount_toward_floor() {
    let counter = counter_with_corpus();
    let tuning = Tuning {
        boundary_discount: 16,
        boundary_floor: 1,
    };
    let v1 = WeightTable::from_bytes(&counter.to_table_bytes()).unwrap();
    let options = MintOptions {
        provenance: "p",
        tuning,
    };
    let v2 = WeightTable::from_bytes(&counter.mint_table_bytes(&options).unwrap()).unwrap();

    for (a, b) in [
        (b'd', b'_'),
        (b'_', b'c'),
        (b'e', b'.'),
        (b'.', b'r'),
        (b'1', b'-'),
        (b'c', b':'),
        (b't', b'\n'),
        (b'\n', b's'),
    ] {
        let expected = (v1.weight(a, b) / 16).max(1);
        assert_eq!(v2.weight(a, b), expected, "boundary pair ({a},{b})");
    }
}

#[test]
fn interior_pairs_pass_through_tuned_mint() {
    let counter = counter_with_corpus();
    let v1 = WeightTable::from_bytes(&counter.to_table_bytes()).unwrap();
    let options = MintOptions {
        provenance: "p",
        tuning: Tuning::default(),
    };
    let v2 = WeightTable::from_bytes(&counter.mint_table_bytes(&options).unwrap()).unwrap();

    for (a, b) in [(b's', b'c'), (b'c', b'h'), (b'o', b'c'), (b'z', b'q')] {
        assert_eq!(v1.weight(a, b), v2.weight(a, b), "interior pair ({a},{b})");
    }
}

#[test]
fn mod_empty_counter_produces_valid_table() {
    let counter = BigramCounter::new();
    let table = WeightTable::from_bytes(&counter.to_table_bytes()).unwrap();
    assert_eq!(table.weight(0, 0), u32::MAX);
}

#[test]
fn counts_byte_pairs_and_tracks_progress() {
    let mut counter = BigramCounter::new();
    counter.process(b"aab");
    counter.process(b"x");

    assert_eq!(counter.count(b'a', b'a'), 1);
    assert_eq!(counter.count(b'a', b'b'), 1);
    assert_eq!(counter.count(b'b', b'a'), 0);
    assert_eq!(counter.pairs_processed(), 2);
    assert_eq!(counter.bytes_processed(), 4);
}

#[test]
fn files_are_tracked_separately() {
    let mut counter = BigramCounter::new();
    counter.add_files(2);
    assert_eq!(counter.files_processed(), 2);
    assert_eq!(counter.pairs_processed(), 0);
}

#[test]
fn merge_matches_direct_reference() {
    let mut counter = BigramCounter::new();
    let mut staging = BigramCounter::new();
    let data = b"the quick brown fox jumps over the lazy dog";
    staging.process(data);
    counter.merge(&staging);

    let (reference, total) = reference_counts(&[data]);
    assert_eq!(counter.pairs_processed(), total);
    for (&(a, b), &n) in &reference {
        assert_eq!(counter.count(a, b), n, "mismatch at ({a},{b})");
    }
}

#[test]
fn snapshot_restore_round_trips_counts_and_totals() {
    let mut counted = BigramCounter::new();
    counted.process(b"ababa");
    counted.add_files(3);

    let mut restored = BigramCounter::new();
    restored
        .restore(
            &counted.snapshot(),
            counted.pairs_processed(),
            counted.bytes_processed(),
            counted.files_processed(),
        )
        .unwrap();

    assert_eq!(restored.snapshot(), counted.snapshot());
    assert_eq!(restored.pairs_processed(), counted.pairs_processed());
    assert_eq!(restored.bytes_processed(), counted.bytes_processed());
    assert_eq!(restored.files_processed(), counted.files_processed());
    assert_eq!(restored.to_table_bytes(), counted.to_table_bytes());
}

#[test]
fn restore_rejects_bad_snapshot_len_and_non_fresh_counter() {
    let mut counter = BigramCounter::new();
    assert!(matches!(
        counter.restore(&[0; 7], 0, 0, 0),
        Err(LearnError::InvalidSnapshotLen { .. })
    ));

    counter.process(b"ab");
    let snapshot = BigramCounter::new().snapshot();
    assert_eq!(
        counter.restore(&snapshot, 0, 0, 0),
        Err(LearnError::NotFresh)
    );
}

#[test]
fn pair_index_edges_restore_and_serialize() {
    let mut counter = BigramCounter::new();
    for (left, right, count) in [
        (0u8, 0u8, 3u64),
        (0, u8::MAX, 7),
        (u8::MAX, 0, 11),
        (u8::MAX, u8::MAX, 5),
    ] {
        counter.add_pair(left, right, count);
    }
    // the pair total goes in through a checkpoint
    let mut restored = BigramCounter::new();
    restored.restore(&counter.snapshot(), 26, 0, 0).unwrap();

    let table = WeightTable::from_bytes(&restored.to_table_bytes()).unwrap();
    assert_eq!(table.weight(0, 0), 26 / 3);
    assert_eq!(table.weight(0, u8::MAX), 26 / 7);
    assert_eq!(table.weight(u8::MAX, 0), 26 / 11);
    assert_eq!(table.weight(u8::MAX, u8::MAX), 26 / 5);
}

#[test]
fn mod_learned_table_matches_independent_reference() {
    let corpus = corpus();
    let (counts, total) = reference_counts(&corpus);
    let mut counter = BigramCounter::new();
    for row in &corpus {
        counter.process(row);
    }
    let table = WeightTable::from_bytes(&counter.to_table_bytes()).unwrap();

    assert_eq!(counter.pairs_processed(), total);
    assert_table_matches_reference(&table, &counts, total);
}

#[test]
fn both_counters_mint_the_same_bytes() {
    let mut counter = BigramCounter::new();
    let mut tallied = run::BigramCounter::new();
    for row in corpus() {
        counter.process(row);
        tallied.process(row);
    }
    assert_eq!(counter.to_table_bytes(), tallied.to_table_bytes());
}

#[test]
fn batches_count_bytes_and_never_across_values() {
    let mut counter = BigramCounter::new();
    let values: [&[u8]; 3] = [b"ab", b"cd", b"x"];
    assert_eq!(counter.process_batch(&values), 5);
    assert_eq!(counter.pairs_processed(), 2);
    assert_eq!(counter.count(b'b', b'c'), 0);

    let mut apart = BigramCounter::new();
    for value in values {
        apart.process(value);
    }
    assert_eq!(apart.snapshot(), counter.snapshot());
}

#[test]
fn snapshots_are_little_endian_words_by_pair() {
    let mut counter = BigramCounter::new();
    counter.add_pair(0, 1, 0x0102_0304_0506_0708);
    counter.add_pair_by_index(65536, 9);
    let snapshot = counter.snapshot();
    assert_eq!(snapshot.len(), 65536 * 8);
    assert_eq!(&snapshot[8..16], &[8, 7, 6, 5, 4, 3, 2, 1]);
    assert!(snapshot[16..].iter().all(|&b| b == 0));
}

#[test]
fn restore_failures_name_the_lengths_and_change_nothing() {
    let mut counter = BigramCounter::new();
    assert_eq!(
        counter.restore(&[0; 7], 1, 2, 3),
        Err(LearnError::InvalidSnapshotLen {
            expected: 524288,
            actual: 7
        })
    );
    assert_eq!(counter.pairs_processed(), 0);
}

#[test]
fn tallies_add_up_and_report_downloads() {
    let mut a = run::LocalTally::new();
    let mut b = run::LocalTally::new();
    a.count_buffer(b"abab");
    b.count_buffer(b"ab");
    a.add_from(&b);
    assert_eq!(a.bytes(), 6);

    let mut c = run::BigramCounter::new();
    c.merge(&a);
    c.add_downloaded(40);
    c.add_files(2);
    c.add_pairs(1);
    c.add_bytes(1);
    assert_eq!(c.count(b'a', b'b'), 3);
    assert_eq!(c.pairs_processed(), 5);
    assert_eq!(c.bytes_processed(), 7);
    assert_eq!(c.downloaded_bytes(), 40);
    assert_eq!(c.files_processed(), 2);
    let counts = c.counts_vec();
    assert_eq!(counts.len(), 65536);
    assert_eq!(counts[usize::from(b'b') << 8 | usize::from(b'a')], 1);
}

#[test]
fn weights_are_inverse_frequencies() {
    assert_eq!(compute_weight(100, 0), u32::MAX);
    assert_eq!(compute_weight(100, 7), 14);
    assert_eq!(compute_weight(u64::MAX, 1), u32::MAX);
    assert_eq!(compute_weight(3, 7), 0);
    assert_eq!(tune_weight(33, b'a', b'_', Tuning::default()), 2);
    assert_eq!(tune_weight(3, b'\r', b'x', Tuning::default()), 1);
    assert_eq!(tune_weight(33, b'a', b'b', Tuning::default()), 33);
}

#[test]
fn table_bytes_round_trip() {
    let table = WeightTable::from_weight_fn(|a, b| u32::from(a) * 1000 + u32::from(b));
    let bytes = table.to_bytes();
    assert_eq!(bytes.len(), 262160);
    assert_eq!(&bytes[..8], b"SPNG\x01\0\0\0");
    assert_eq!(bytes[8..12], crc32fast::hash(&bytes[16..]).to_le_bytes());
    assert_eq!(bytes[12..16], [0; 4]);
    let read = WeightTable::from_bytes(&bytes).unwrap();
    assert_eq!(read, table);
    assert_eq!(read.version(), 1);
    assert_eq!(read.provenance(), None);
    assert_eq!(read.to_bytes(), bytes);

    let noted = table.with_provenance("größe").unwrap();
    let bytes = noted.to_bytes();
    assert_eq!(bytes.len(), 262160 + 7);
    assert_eq!(WeightTable::from_bytes(&bytes).unwrap(), noted);
}

#[test]
fn table_bytes_are_refused_for_each_fault() {
    let table = WeightTable::from_weight_fn(|a, _| u32::from(a));
    let bytes = table.to_bytes();
    assert_eq!(
        WeightTable::from_bytes(&bytes[..15]),
        Err(TableError::Truncated { len: 15 })
    );
    let mut bad = bytes.clone();
    bad[0] = b'X';
    assert_eq!(WeightTable::from_bytes(&bad), Err(TableError::BadMagic));
    bad[0] = b'S';
    bad[4] = 9;
    assert_eq!(
        WeightTable::from_bytes(&bad),
        Err(TableError::UnsupportedVersion { version: 9 })
    );
    bad[4] = 1;
    bad[12] = 1;
    assert_eq!(
        WeightTable::from_bytes(&bad),
        Err(TableError::ProvenanceTooLong { len: 1, max: 0 })
    );
    assert_eq!(
        WeightTable::from_bytes(&bytes[..262159]),
        Err(TableError::InvalidLen {
            expected: 262160,
            actual: 262159
        })
    );
    let mut bad = bytes.clone();
    bad[20] ^= 1;
    assert!(matches!(
        WeightTable::from_bytes(&bad),
        Err(TableError::ChecksumMismatch { .. })
    ));
    let mut bad = table.with_provenance("p").unwrap().to_bytes();
    bad[262160] = 0xFF;
    let crc = crc32fast::hash(&bad[16..]);
    bad[8..12].copy_from_slice(&crc.to_le_bytes());
    assert_eq!(
        WeightTable::from_bytes(&bad),
        Err(TableError::InvalidProvenance)
    );
}

#[test]
fn gathered_tallies_merge_as_their_parts_do() {
    let mut a = run::LocalTally::new();
    a.count_buffer(b"aab");
    let mut b = run::LocalTally::new();
    b.count_buffer(b"abab");
    let mut parts = run::BigramCounter::new();
    parts.merge(&a);
    parts.merge(&b);
    let mut turned = run::BigramCounter::new();
    turned.merge(&b);
    turned.merge(&a);
    a.add_from(&b);
    let mut sum = run::BigramCounter::new();
    sum.merge(&a);
    for other in [&parts, &turned] {
        assert_eq!(sum.counts_vec(), other.counts_vec());
        assert_eq!(sum.pairs_processed(), other.pairs_processed());
        assert_eq!(sum.bytes_processed(), other.bytes_processed());
    }
    assert_eq!(sum.count(b'a', b'b'), 3);
}

#[test]
fn staging_counters_merge_in_any_order() {
    let part = |text: &[u8], files: u64| {
        let mut c = BigramCounter::new();
        c.process(text);
        c.add_files(files);
        c
    };
    let parts = [part(b"aab", 1), part(b"", 2), part(b"bababa", 4)];
    let merged = |order: [usize; 3]| {
        let mut c = BigramCounter::new();
        for i in order {
            c.merge(&parts[i]);
        }
        (
            c.snapshot(),
            c.pairs_processed(),
            c.bytes_processed(),
            c.files_processed(),
        )
    };
    let first = merged([0, 1, 2]);
    assert_eq!(merged([2, 1, 0]), first);
    assert_eq!(merged([1, 2, 0]), first);
    assert_eq!((first.1, first.2, first.3), (7, 9, 7));
}

#[test]
fn series_of_values_add_up() {
    let texts: [&[u8]; 4] = [b"aab", b"b", b"", b"abab"];
    let mut single = BigramCounter::new();
    let mut direct = run::BigramCounter::new();
    for text in texts {
        single.process(text);
        direct.process(text);
    }
    let mut batch = BigramCounter::new();
    assert_eq!(batch.process_batch(&texts), 8);
    assert_eq!(single.snapshot(), batch.snapshot());
    assert_eq!(single.count(b'a', b'b'), 3);
    assert_eq!(direct.count(b'a', b'b'), 3);
    assert_eq!(single.pairs_processed(), 5);
    assert_eq!(direct.counts_vec().iter().sum::<u64>(), direct.pairs_processed());
}

#[test]
fn pairs_are_the_sum_of_the_counts_however_they_came_about() {
    let mut part = BigramCounter::new();
    part.process_batch(&[&b"abc"[..], b"", b"x"]);
    let mut whole = BigramCounter::new();
    whole.process(b"aab");
    whole.merge(&part);
    whole.merge(&part);
    let words: Vec<u64> = whole
        .snapshot()
        .chunks(8)
        .map(|w| u64::from_le_bytes(w.try_into().unwrap()))
        .collect();
    assert_eq!(words.iter().sum::<u64>(), whole.pairs_processed());
    assert_eq!(whole.pairs_processed(), 6);

    let mut a = run::LocalTally::new();
    a.count_buffer(b"aab");
    let mut b = run::LocalTally::new();
    b.count_buffer(b"q");
    b.count_buffer(b"abab");
    a.add_from(&b);
    let mut c = run::BigramCounter::new();
    c.process(b"zz");
    c.merge(&a);
    assert_eq!(c.counts_vec().iter().sum::<u64>(), c.pairs_processed());
    assert_eq!(c.pairs_processed(), 6);
}
