//! Byte sets, byte counts and edges.

use sngram::bytes::{ByteSet256, EdgeBytes, SaturatingByteCounts256};

#[test]
fn byte_set_tracks_membership() {
    let mut set = ByteSet256::default();
    let mut need = ByteSet256::default();
    set.insert(b'a');
    set.insert(b'z');
    need.insert(b'z');

    assert!(set.contains(b'a'));
    assert!(!set.contains(b'b'));
    assert!(set.contains_any(need));
    assert_eq!(set.union(need).len(), 2);
    assert_eq!(ByteSet256::from_words(set.words()), set);
}

#[test]
fn saturating_counts_track_minimums() {
    let mut have = SaturatingByteCounts256::default();
    let mut need = SaturatingByteCounts256::default();
    have.observe(b'a');
    have.observe(b'a');
    need.observe(b'a');

    assert!(have.contains_at_least(&need));
    assert_eq!(have.counts()[usize::from(b'a')], 2);
    assert_eq!(SaturatingByteCounts256::from_counts(*have.counts()), have);
}

#[test]
fn edge_bytes_keep_the_leading_capacity() {
    let edge = EdgeBytes::from_slice(b"0123456789abcdefgh");

    assert_eq!(edge.as_slice(), b"0123456789abcdef");
    assert_eq!(edge.len(), EdgeBytes::CAPACITY);
    assert!(EdgeBytes::default().is_empty());
}

#[test]
fn byte_set_reaches_both_ends_of_each_word() {
    let mut set = ByteSet256::default();
    assert!(set.is_empty());
    for b in [0u8, 63, 64, 127, 128, 191, 192, 255] {
        set.insert(b);
    }
    assert_eq!(set.len(), 8);
    assert_eq!(set.words(), [1 | 1 << 63; 4]);
    assert!(set.contains(255) && set.contains(0) && !set.contains(1));
}

#[test]
fn counts_stop_at_their_greatest_value() {
    let mut counts = SaturatingByteCounts256::default();
    assert!(counts.is_empty());
    for _ in 0..300 {
        counts.observe(9);
    }
    assert_eq!(counts.counts()[9], 255);
    assert!(!counts.is_empty());

    let mut more = [0u8; 256];
    more[9] = 255;
    let need = SaturatingByteCounts256::from_counts(more);
    assert!(counts.contains_at_least(&need));
}

#[test]
fn edge_push_drops_what_does_not_fit() {
    let mut edge = EdgeBytes::default();
    for b in 0u8..20 {
        edge.push(b);
    }
    assert_eq!(edge.len(), 16);
    assert_eq!(edge.as_slice()[15], 15);
}

#[test]
fn edges_are_equal_where_their_bytes_are() {
    let text: Vec<u8> = (1u8..=20).collect();
    for len in 0..=20usize {
        let mut built = EdgeBytes::default();
        for &b in &text[..len] {
            built.push(b);
        }
        assert_eq!(built, EdgeBytes::from_slice(&text[..len]));
    }
    let full = EdgeBytes::from_slice(&text[..16]);
    let mut pushed = full;
    pushed.push(99);
    assert_eq!(pushed, full);
    assert_ne!(EdgeBytes::from_slice(b"ab"), EdgeBytes::from_slice(b"ab\0"));
}
