//! Scanning documents into grams, and covering literals.

use sngram::error::ScanError;
use sngram::extract::cover::{cover_one, guaranteed};
use sngram::extract::stream::{scan_with, StreamScanner};
use sngram::extract::{
    check_scan_len, scan, scan_slice, try_scan, ScanOptions, MAX_LEN, MIN_LEN,
};
use sngram::hashing::{hash_bytes, hash_bytes_keyed, HashKey};
use sngram::table::{WeightTable, TABLE_BINARY_SIZE};

fn table() -> WeightTable {
    let mut buf = vec![0u8; TABLE_BINARY_SIZE];
    buf[..4].copy_from_slice(b"SPNG");
    buf[4..8].copy_from_slice(&1u32.to_le_bytes());
    for c1 in 0u8..=255 {
        for c2 in 0u8..=255 {
            let w = crc32fast::hash(&[c1, c2]);
            let idx = (usize::from(c1) << 8) | usize::from(c2);
            let off = 16 + idx * 4;
            buf[off..off + 4].copy_from_slice(&w.to_le_bytes());
        }
    }
    let crc = crc32fast::hash(&buf[16..]);
    buf[8..12].copy_from_slice(&crc.to_le_bytes());
    WeightTable::from_bytes(&buf).unwrap()
}

fn collect(table: &WeightTable, doc: &[u8], opts: ScanOptions) -> Vec<(Vec<u8>, u64)> {
    scan_with(table, doc, opts)
}

#[test]
fn gram_length_bounds_are_frozen_format_vocabulary() {
    assert_eq!(MIN_LEN, 3);
    assert_eq!(MAX_LEN, 100);
}

#[test]
fn default_options_match_legacy_scan() {
    let t = table();
    let doc = b"fn main() { let x = foo_bar(42); }";
    let mut plain = Vec::new();
    for g in scan(&t, doc) {
        plain.push((doc[g.start..g.end].to_vec(), g.hash));
    }
    assert_eq!(collect(&t, doc, ScanOptions::default()), plain);
}

#[test]
fn sentinels_equal_scanning_bracketed_bytes() {
    let t = table();
    let doc = b"static int sched_clock_init(void);";
    let mut bracketed = Vec::with_capacity(doc.len() + 2);
    bracketed.push(b'\n');
    bracketed.extend_from_slice(doc);
    bracketed.push(b'\n');
    let with_sentinels = collect(
        &t,
        doc,
        ScanOptions {
            line_sentinels: true,
            ..ScanOptions::default()
        },
    );
    assert_eq!(
        with_sentinels,
        collect(&t, &bracketed, ScanOptions::default())
    );
}

#[test]
fn sentinel_grams_reach_document_edges() {
    let t = table();
    let grams = collect(
        &t,
        b"EXPORT_SYMBOL(foo);",
        ScanOptions {
            line_sentinels: true,
            ..ScanOptions::default()
        },
    );
    assert!(
        grams.iter().any(|(g, _)| g.first() == Some(&b'\n')),
        "a leading boundary gram must exist"
    );
    assert!(
        grams.iter().any(|(g, _)| g.last() == Some(&b'\n')),
        "a trailing boundary gram must exist"
    );
}

#[test]
fn fold_equals_scanning_folded_bytes_in_folded_space() {
    let t = table();
    let doc = b"Sched_Clock INIT KFree";
    let folded_doc: Vec<u8> = doc.iter().map(u8::to_ascii_lowercase).collect();
    let via_fold = collect(
        &t,
        doc,
        ScanOptions {
            fold: true,
            ..ScanOptions::default()
        },
    );
    let via_prefold = collect(
        &t,
        &folded_doc,
        ScanOptions {
            key: HashKey::unkeyed().folded(),
            ..ScanOptions::default()
        },
    );
    assert_eq!(via_fold, via_prefold);
    assert!(!via_fold.is_empty());
}

#[test]
fn folded_space_never_collides_with_primary() {
    let t = table();
    let doc = b"already lowercase text";
    let primary = collect(&t, doc, ScanOptions::default());
    let folded = collect(
        &t,
        doc,
        ScanOptions {
            fold: true,
            ..ScanOptions::default()
        },
    );
    for ((gp, hp), (gf, hf)) in primary.iter().zip(&folded) {
        assert_eq!(gp, gf, "same windows on already-folded text");
        assert_ne!(hp, hf, "spaces must be disjoint for {gp:?}");
    }
}

#[test]
fn keyed_emissions_match_direct_keyed_hashing() {
    let t = table();
    let key = HashKey::new(0x5EED_F00D_0123_4567);
    let doc = b"pub fn read_lock(&self) -> Guard;";
    for (g, h) in collect(
        &t,
        doc,
        ScanOptions {
            key,
            ..ScanOptions::default()
        },
    ) {
        assert_eq!(h, hash_bytes_keyed(&g, key), "gram {g:?}");
    }
}

#[test]
fn finish_doc_isolates_documents() {
    let t = table();
    let opts = ScanOptions {
        line_sentinels: true,
        ..ScanOptions::default()
    };
    let mut scanner = StreamScanner::with_options(&t, opts);
    let mut first = Vec::new();
    first.extend(scanner.push(b"first document body"));
    first.extend(scanner.finish_doc());
    assert!(!first.is_empty(), "first document must emit grams");
    let mut second = Vec::new();
    second.extend(scanner.push(b"second document body"));
    second.extend(scanner.finish_doc());
    assert_eq!(second, collect(&t, b"second document body", opts));
}

/// Every span whose border pairs outweigh all pairs between them.
fn spans_by_definition(t: &WeightTable, doc: &[u8]) -> Vec<(usize, usize)> {
    let weight = |i: usize| t.weight(doc[i], doc[i + 1]);
    let mut out = Vec::new();
    for end in MIN_LEN..=doc.len() {
        for start in (0..=end - MIN_LEN).rev() {
            if end - start > MAX_LEN {
                continue;
            }
            let inner = (start + 1..end - 2).map(weight).max();
            if inner.map_or(true, |w| w < weight(start) && w < weight(end - 2)) {
                out.push((start, end));
            }
        }
    }
    out
}

#[test]
fn scan_emits_exactly_the_hull_spans_in_order() {
    let t = table();
    let doc: Vec<u8> = (0..400u32).map(|i| (i * i % 61) as u8 + b'!').collect();
    let spans: Vec<(usize, usize)> = scan(&t, &doc).iter().map(|g| (g.start, g.end)).collect();
    assert_eq!(spans, spans_by_definition(&t, &doc));
    for g in scan_slice(&t, &doc) {
        assert_eq!(g.hash, hash_bytes(&doc[g.start..g.end]));
    }
}

#[test]
fn long_falling_and_rising_weights_stop_at_the_longest_gram() {
    let flat = WeightTable::from_weight_fn(|c1, c2| {
        if c1 == b'<' || c2 == b'>' {
            9
        } else {
            1
        }
    });
    let mut doc = vec![b'<'];
    doc.extend(vec![b'x'; 98]);
    doc.push(b'>');
    assert!(scan(&flat, &doc).iter().any(|g| (g.start, g.end) == (0, 100)));
    doc.insert(1, b'x');
    assert!(!scan(&flat, &doc).iter().any(|g| (g.start, g.end) == (0, 101)));
}

#[test]
fn chunking_does_not_change_a_document() {
    let t = table();
    let doc: Vec<u8> = (0..3000u32).map(|i| (i * 7919 % 97) as u8 + 32).collect();
    let whole = collect(&t, &doc, ScanOptions::default());
    for size in [1usize, 7, 1000, 1024, 1025] {
        let mut scanner = StreamScanner::new(&t);
        let mut out = Vec::new();
        for chunk in doc.chunks(size) {
            out.extend(scanner.push(chunk));
        }
        scanner.finish();
        assert_eq!(out, whole, "chunks of {size}");
    }
}

#[test]
fn short_documents_hold_no_grams() {
    let t = table();
    assert!(scan(&t, b"").is_empty());
    assert!(scan(&t, b"ab").is_empty());
    assert_eq!(scan(&t, b"abc").len(), 1);
}

#[test]
fn try_scan_agrees_with_scan() {
    let t = table();
    let doc = b"fn max_file_size() -> u64 { 0 }";
    let tried = try_scan(&t, doc).unwrap();
    let plain = scan(&t, doc);
    assert_eq!(tried.len(), plain.len());
    for (a, b) in tried.iter().zip(&plain) {
        assert_eq!((a.start, a.end, a.hash), (b.start, b.end, b.hash));
    }
}

#[test]
fn scans_refuse_what_is_too_large() {
    let most = u32::MAX as usize;
    assert!(check_scan_len(0).is_ok());
    assert!(check_scan_len(most).is_ok());
    let Err(ScanError::TooLarge { len }) = check_scan_len(most + 1) else {
        panic!("one byte too many");
    };
    assert_eq!(len, most + 1);
}

#[test]
fn covers_are_grams_of_every_text_around_the_literal() {
    let t = table();
    let literal = b"sched_clock_init";
    let doc = b"static int sched_clock_init(void);";
    let scanned: Vec<Vec<u8>> = scan(&t, doc)
        .iter()
        .map(|g| doc[g.start..g.end].to_vec())
        .collect();
    let cover = cover_one(&t, literal);
    assert!(!cover.is_empty());
    for gram in &cover {
        assert!(scanned.contains(&gram.as_bytes().to_vec()), "{gram:?}");
    }
    for gram in &guaranteed(&t, literal) {
        assert!(scanned.contains(&gram.as_bytes().to_vec()), "{gram:?}");
    }
}

#[test]
fn literals_have_covers_from_the_shortest_gram_on() {
    let tables = [
        table(),
        WeightTable::from_weight_fn(|_, _| 7),
        WeightTable::from_weight_fn(|c1, c2| u32::from(c1) + u32::from(c2)),
    ];
    let text: Vec<u8> = (0..260u32).map(|i| (i * i % 61) as u8 + b'!').collect();
    let falling: Vec<u8> = (0..=255u8).rev().collect();
    for t in &tables {
        for source in [&text, &falling] {
            for len in [0usize, 1, 2] {
                assert!(cover_one(t, &source[..len]).is_empty());
            }
            for len in [3usize, 4, 5, 99, 100, 101, 102, 103, 200, 255] {
                let literal = &source[..len];
                let cover = cover_one(t, literal);
                assert!(!cover.is_empty(), "{len} bytes");
                let scanned: Vec<Vec<u8>> = scan(t, source)
                    .iter()
                    .map(|g| source[g.start..g.end].to_vec())
                    .collect();
                for gram in cover {
                    assert!((MIN_LEN..=MAX_LEN).contains(&gram.as_bytes().len()));
                    assert!(literal.windows(gram.as_bytes().len()).any(|w| w == gram.as_bytes()));
                    assert!(scanned.iter().any(|g| g == gram.as_bytes()));
                }
            }
        }
    }
}

#[test]
fn a_finished_scanner_goes_on_as_a_new_one() {
    let t = table();
    for line_sentinels in [false, true] {
        let opts = ScanOptions {
            line_sentinels,
            ..ScanOptions::default()
        };
        let mut used = StreamScanner::with_options(&t, opts);
        used.push(b"half a document, never end");
        used.finish();
        let mut new = StreamScanner::with_options(&t, opts);
        assert_eq!(used.finish_doc(), new.finish_doc());
        for chunk in [&b"int sched"[..], b"", b"_clock(void);"] {
            assert_eq!(used.push(chunk), new.push(chunk));
        }
        assert_eq!(used.finish_doc(), new.finish_doc());
    }
}

#[test]
fn chunked_documents_are_scanned_whole_under_every_option() {
    let t = table();
    let doc = b"Static INT sched_Clock_init(void) { return 0; }";
    for line_sentinels in [false, true] {
        for fold in [false, true] {
            let opts = ScanOptions {
                key: HashKey::new(77),
                line_sentinels,
                fold,
            };
            let mut scanner = StreamScanner::with_options(&t, opts);
            scanner.push(b"another document");
            scanner.finish_doc();
            let mut out = Vec::new();
            for chunk in [&doc[..5], &doc[5..5], &doc[5..20], &doc[20..]] {
                out.extend(scanner.push(chunk));
            }
            out.extend(scanner.finish_doc());
            assert_eq!(out, collect(&t, doc, opts));
        }
    }
}

#[test]
fn sentinels_and_folding_equal_writing_them_out() {
    let t = table();
    let doc = b"Static INT sched_Clock_init(void);";
    let key = HashKey::new(77);
    let opts = ScanOptions {
        key,
        line_sentinels: true,
        fold: true,
    };
    let mut written = vec![b'\n'];
    written.extend(doc.iter().map(u8::to_ascii_lowercase));
    written.push(b'\n');
    let plain = ScanOptions {
        key: key.folded(),
        ..ScanOptions::default()
    };
    let out = collect(&t, doc, opts);
    assert_eq!(out, collect(&t, &written, plain));
    assert!(out.iter().all(|(g, h)| *h == hash_bytes_keyed(g, key.folded())));
}

#[test]
fn scans_list_spans_in_order_and_never_twice() {
    let t = table();
    let doc: Vec<u8> = (0..300u32).map(|i| (i * i % 61) as u8 + b'!').collect();
    let spans: Vec<(usize, usize)> = scan(&t, &doc).iter().map(|g| (g.start, g.end)).collect();
    for pair in spans.windows(2) {
        let (a, b) = (pair[0], pair[1]);
        assert!(a.1 < b.1 || (a.1 == b.1 && a.0 > b.0), "{a:?} before {b:?}");
    }
}

#[test]
fn grams_within_a_part_are_the_grams_of_the_part() {
    let t = table();
    let doc: Vec<u8> = (0..200u32).map(|i| (i * i % 61) as u8 + b'!').collect();
    let (from, to) = (37usize, 151usize);
    let inside: Vec<(usize, usize)> = scan(&t, &doc)
        .iter()
        .filter(|g| from <= g.start && g.end <= to)
        .map(|g| (g.start - from, g.end - from))
        .collect();
    let part: Vec<(usize, usize)> = scan(&t, &doc[from..to])
        .iter()
        .map(|g| (g.start, g.end))
        .collect();
    assert_eq!(inside, part);
}
