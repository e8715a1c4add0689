//! Byte presence, count, and edge types for scan metadata.

use vstd::prelude::*;

verus! {

/// Bit `i` of a word.
pub open spec fn bit(w: u64, i: u64) -> bool {
    (w >> i) & 1 == 1
}

/// How many of the first `n` bits are set.
pub open spec fn ones(w: u64, n: int) -> nat
    decreases n,
{
    if n <= 0 {
        0
    } else {
        ones(w, n - 1) + if bit(w, (n - 1) as u64) {
            1nat
        } else {
            0
        }
    }
}

proof fn lemma_bit_set(w: u64, k: u64, j: u64)
    requires
        k < 64,
        j < 64,
    ensures
        bit(w | (1u64 << k), j) == (bit(w, j) || j == k),
{
    assert(((w | (1u64 << k)) >> j) & 1 == 1 <==> (((w >> j) & 1 == 1) || j == k)) by (bit_vector)
        requires
            k < 64,
            j < 64,
    ;
}

proof fn lemma_bit_or(a: u64, b: u64, j: u64)
    requires
        j < 64,
    ensures
        bit(a | b, j) == (bit(a, j) || bit(b, j)),
        bit(a & b, j) == (bit(a, j) && bit(b, j)),
        !bit(0, j),
{
    assert(((a | b) >> j) & 1 == 1 <==> ((a >> j) & 1 == 1 || (b >> j) & 1 == 1)) by (bit_vector)
        requires
            j < 64,
    ;
    assert(((a & b) >> j) & 1 == 1 <==> ((a >> j) & 1 == 1 && (b >> j) & 1 == 1)) by (bit_vector)
        requires
            j < 64,
    ;
    assert((0u64 >> j) & 1 == 0) by (bit_vector)
        requires
            j < 64,
    ;
}

/// A word that is not zero has a bit set.
proof fn lemma_nonzero_bit(w: u64) -> (j: u64)
    requires
        w != 0,
    ensures
        j < 64,
        bit(w, j),
{
    assert(w >> 0 == w) by (bit_vector);
    lemma_zero_from(w, 0)
}

proof fn lemma_zero_from(w: u64, j: u64) -> (k: u64)
    requires
        j < 64,
        w >> j != 0,
    ensures
        k < 64,
        bit(w, k),
    decreases 64 - j,
{
    if bit(w, j) {
        j
    } else {
        let n = (j + 1) as u64;
        assert(j == 63 ==> w >> j == 1 || w >> j == 0) by (bit_vector);
        assert((1u64 & 1) == 1) by (bit_vector);
        assert(j < 63 && (w >> j) & 1 != 1 && w >> j != 0 ==> w >> ((j + 1) as u64) != 0)
            by (bit_vector);
        lemma_zero_from(w, n)
    }
}

/// Words that differ have a bit that differs.
proof fn lemma_differing_bit(a: u64, b: u64) -> (j: u64)
    requires
        a != b,
    ensures
        j < 64,
        bit(a, j) != bit(b, j),
{
    assert(a != b ==> a ^ b != 0) by (bit_vector);
    let j = lemma_nonzero_bit(a ^ b);
    assert(j < 64 && ((a ^ b) >> j) & 1 == 1 ==> ((a >> j) & 1 == 1) != ((b >> j) & 1 == 1))
        by (bit_vector);
    j
}

/// How many bytes below `n` are in the set.
pub open spec fn count_below(s: Set<u8>, n: int) -> nat
    decreases n,
{
    if n <= 0 {
        0
    } else {
        count_below(s, n - 1) + if s.contains((n - 1) as u8) {
            1nat
        } else {
            0
        }
    }
}

/// Exact set of byte values present in scanned text.
#[derive(Debug, Clone, Copy, PartialEq, Eq, Hash)]
pub struct ByteSet256 {
    words: [u64; 4],
}

impl Default for ByteSet256 {
    fn default() -> (set: ByteSet256)
        ensures
            forall|b: u8| !(#[trigger] set.has(b)),
            set.bits() == seq![0u64, 0, 0, 0],
    {
        let set = ByteSet256 { words: [0, 0, 0, 0] };
        proof {
            assert(set.words@ =~= seq![0u64, 0, 0, 0]);
            assert forall|b: u8| !(#[trigger] set.has(b)) by {
                lemma_bit_or(0, 0, (b % 64) as u64);
            }
        }
        set
    }
}

impl ByteSet256 {
    /// The four words.
    pub closed spec fn bits(self) -> Seq<u64> {
        self.words@
    }

    /// The byte is in the set.
    pub open spec fn has(self, b: u8) -> bool {
        bit(self.bits()[b as int / 64], (b % 64) as u64)
    }

    /// The bytes in the set.
    pub open spec fn members(self) -> Set<u8> {
        Set::new(|b: u8| self.has(b))
    }

    /// A set from its four 64-bit words, one bit per byte value.
    pub fn from_words(words: [u64; 4]) -> (set: ByteSet256)
        ensures
            set.bits() == words@,
    {
        ByteSet256 { words }
    }

    /// The four 64-bit words, one bit per byte value.
    pub fn words(self) -> (words: [u64; 4])
        ensures
            words@ == self.bits(),
    {
        self.words
    }

    /// Add one byte to the set.
    pub fn insert(&mut self, byte: u8)
        ensures
            forall|b: u8| #[trigger] final(self).has(b) == (old(self).has(b) || b == byte),
    {
        let idx: usize = byte as usize;
        let at: usize = idx / 64;
        let word: u64 = self.words[at] | (1u64 << ((idx % 64) as u64));
        self.words[at] = word;
        proof {
            assert forall|b: u8| #[trigger] self.has(b) == (old(self).has(b) || b == byte) by {
                if b as int / 64 == at {
                    lemma_bit_set(old(self).words@[at as int], (idx % 64) as u64, (b % 64) as u64);
                }
            }
        }
    }

    /// True when the byte is in the set.
    pub fn contains(self, byte: u8) -> (found: bool)
        ensures
            found == self.has(byte),
    {
        let idx: usize = byte as usize;
        (self.words[idx / 64] >> ((idx % 64) as u64)) & 1 == 1
    }

    /// True when at least one byte in `need` is present.
    pub fn contains_any(self, need: ByteSet256) -> (any: bool)
        ensures
            any == (exists|b: u8| #[trigger] self.has(b) && need.has(b)),
    {
        let any = self.words[0] & need.words[0] != 0 || self.words[1] & need.words[1] != 0
            || self.words[2] & need.words[2] != 0 || self.words[3] & need.words[3] != 0;
        proof {
            if any {
                let i: int = if self.words@[0] & need.words@[0] != 0 {
                    0
                } else if self.words@[1] & need.words@[1] != 0 {
                    1
                } else if self.words@[2] & need.words@[2] != 0 {
                    2
                } else {
                    3
                };
                let (a, b) = (self.words@[i], need.words@[i]);
                let j = lemma_nonzero_bit(a & b);
                lemma_bit_or(a, b, j);
                let byte = (i * 64 + j) as u8;
                assert(self.has(byte) && need.has(byte));
            }
            if exists|b: u8| #[trigger] self.has(b) && need.has(b) {
                let b = choose|b: u8| #[trigger] self.has(b) && need.has(b);
                let i = b as int / 64;
                lemma_bit_or(self.words@[i], need.words@[i], (b % 64) as u64);
                lemma_bit_or(0, 0, (b % 64) as u64);
                assert(self.words@[i] & need.words@[i] != 0);
            }
        }
        any
    }

    /// The bytes in either set.
    pub fn union(self, other: ByteSet256) -> (set: ByteSet256)
        ensures
            forall|b: u8| #[trigger] set.has(b) == (self.has(b) || other.has(b)),
    {
        let set = ByteSet256 {
            words: [
                self.words[0] | other.words[0],
                self.words[1] | other.words[1],
                self.words[2] | other.words[2],
                self.words[3] | other.words[3],
            ],
        };
        proof {
            assert forall|b: u8| #[trigger] set.has(b) == (self.has(b) || other.has(b)) by {
                let i = b as int / 64;
                lemma_bit_or(self.words@[i], other.words@[i], (b % 64) as u64);
            }
        }
        set
    }

    /// Number of bytes in the set.
    pub fn len(self) -> (n: u32)
        ensures
            n == self.size(),
    {
        count_ones(self.words[0]) + count_ones(self.words[1]) + count_ones(self.words[2])
            + count_ones(self.words[3])
    }

    /// Whether the two sets hold the same bytes.
    pub fn same(self, other: ByteSet256) -> (same: bool)
        ensures
            same == (self.members() == other.members()),
    {
        let same = self.words[0] == other.words[0] && self.words[1] == other.words[1]
            && self.words[2] == other.words[2] && self.words[3] == other.words[3];
        proof {
            if same {
                assert(self.words@ =~= other.words@);
                assert(self.bits() == other.bits());
                assert(self.members() =~= other.members());
            } else {
                let i: int = if self.words@[0] != other.words@[0] {
                    0
                } else if self.words@[1] != other.words@[1] {
                    1
                } else if self.words@[2] != other.words@[2] {
                    2
                } else {
                    3
                };
                let j = lemma_differing_bit(self.words@[i], other.words@[i]);
                let byte = (i * 64 + j) as u8;
                assert(self.has(byte) != other.has(byte));
                assert(self.members().contains(byte) != other.members().contains(byte));
            }
        }
        same
    }

    /// How many bytes are in the set.
    pub open spec fn size(self) -> nat {
        ones(self.bits()[0], 64) + ones(self.bits()[1], 64) + ones(self.bits()[2], 64) + ones(
            self.bits()[3],
            64,
        )
    }

    /// True when the set is empty.
    pub fn is_empty(self) -> (empty: bool)
        ensures
            empty == (forall|b: u8| !(#[trigger] self.has(b))),
    {
        let empty = self.words[0] == 0 && self.words[1] == 0 && self.words[2] == 0 && self.words[3]
            == 0;
        proof {
            if empty {
                assert forall|b: u8| !(#[trigger] self.has(b)) by {
                    lemma_bit_or(0, 0, (b % 64) as u64);
                }
            } else {
                let i: int = if self.words@[0] != 0 {
                    0
                } else if self.words@[1] != 0 {
                    1
                } else if self.words@[2] != 0 {
                    2
                } else {
                    3
                };
                let j = lemma_nonzero_bit(self.words@[i]);
                let byte = (i * 64 + j) as u8;
                assert(self.has(byte));
            }
        }
        empty
    }
}

proof fn lemma_count_word(set: ByteSet256, i: int, n: int)
    requires
        0 <= i < 4,
        0 <= n <= 64,
    ensures
        count_below(set.members(), 64 * i + n) == count_below(set.members(), 64 * i) + ones(
            set.bits()[i],
            n,
        ),
    decreases n,
{
    if n > 0 {
        lemma_count_word(set, i, n - 1);
        let b = (64 * i + n - 1) as u8;
        assert(b as int / 64 == i && b % 64 == n - 1);
        assert(set.members().contains(b) == set.has(b));
    }
}

/// The size of a set is the number of its bytes.
pub proof fn lemma_size(set: ByteSet256)
    ensures
        set.size() == count_below(set.members(), 256),
{
    lemma_count_word(set, 0, 64);
    lemma_count_word(set, 1, 64);
    lemma_count_word(set, 2, 64);
    lemma_count_word(set, 3, 64);
}

/// The number of set bits.
fn count_ones(w: u64) -> (n: u32)
    ensures
        n == ones(w, 64),
        n <= 64,
{
    let mut n: u32 = 0;
    let mut j: u64 = 0;
    while j < 64
        invariant
            j <= 64,
            n == ones(w, j as int),
            n <= j,
        decreases 64 - j,
    {
        if (w >> j) & 1 == 1 {
            n = n + 1;
        }
        j = j + 1;
    }
    n
}

/// Saturating byte histogram for scanned text.
#[derive(Debug, Clone, Copy, PartialEq, Eq, Hash)]
pub struct SaturatingByteCounts256 {
    counts: [u8; 256],
}

impl Default for SaturatingByteCounts256 {
    fn default() -> (counts: SaturatingByteCounts256)
        ensures
            counts.tally().len() == 256,
            forall|b: int| 0 <= b < 256 ==> #[trigger] counts.tally()[b] == 0,
    {
        SaturatingByteCounts256 { counts: [0;256] }
    }
}

impl SaturatingByteCounts256 {
    /// The count of each byte value.
    pub closed spec fn tally(self) -> Seq<u8> {
        self.counts@
    }

    /// A histogram from one saturating count per byte value, where `u8::MAX`
    /// means at least 255.
    pub fn from_counts(counts: [u8; 256]) -> (histogram: SaturatingByteCounts256)
        ensures
            histogram.tally() == counts@,
            histogram.tally().len() == 256,
    {
        SaturatingByteCounts256 { counts }
    }

    /// One saturating count per byte value, where `u8::MAX` means at least
    /// 255.
    pub fn counts(&self) -> (counts: &[u8; 256])
        ensures
            counts@ == self.tally(),
    {
        &self.counts
    }

    /// Count one byte, saturating at `u8::MAX`.
    pub fn observe(&mut self, byte: u8)
        ensures
            final(self).tally().len() == 256,
            final(self).tally() == old(self).tally().update(
                byte as int,
                if old(self).tally()[byte as int] == 255 {
                    255u8
                } else {
                    (old(self).tally()[byte as int] + 1) as u8
                },
            ),
    {
        let count: u8 = self.counts[byte as usize];
        self.counts[byte as usize] = count.saturating_add(1);
        assert(self.counts@ =~= old(self).tally().update(
            byte as int,
            if old(self).tally()[byte as int] == 255 {
                255u8
            } else {
                (old(self).tally()[byte as int] + 1) as u8
            },
        ));
    }

    /// True when every count meets the minimum in `need`, where a saturated
    /// count meets any minimum.
    pub fn contains_at_least(&self, need: &SaturatingByteCounts256) -> (enough: bool)
        ensures
            enough == (forall|b: int|
                0 <= b < 256 ==> #[trigger] self.tally()[b] >= need.tally()[b] || self.tally()[b]
                    == 255),
    {
        let mut b: usize = 0;
        while b < 256
            invariant
                b <= 256,
                forall|k: int|
                    0 <= k < b ==> #[trigger] self.tally()[k] >= need.tally()[k] || self.tally()[k]
                        == 255,
            decreases 256 - b,
        {
            if !(self.counts[b] >= need.counts[b] || self.counts[b] == 255) {
                assert(!(self.tally()[b as int] >= need.tally()[b as int]));
                return false;
            }
            b = b + 1;
        }
        true
    }

    /// True when every count is zero.
    pub fn is_empty(&self) -> (empty: bool)
        ensures
            empty == (forall|b: int| 0 <= b < 256 ==> #[trigger] self.tally()[b] == 0),
    {
        let mut b: usize = 0;
        while b < 256
            invariant
                b <= 256,
                forall|k: int| 0 <= k < b ==> #[trigger] self.tally()[k] == 0,
            decreases 256 - b,
        {
            if self.counts[b] != 0 {
                assert(self.tally()[b as int] != 0);
                return false;
            }
            b = b + 1;
        }
        true
    }
}

/// Fixed-size content edge bytes.
#[derive(Debug, Clone, Copy, PartialEq, Eq, Hash)]
pub struct EdgeBytes {
    len: u8,
    bytes: [u8; 16],
}

impl Default for EdgeBytes {
    fn default() -> (edge: EdgeBytes)
        ensures
            edge.canonical(),
            edge@ == Seq::<u8>::empty(),
    {
        let edge = EdgeBytes { len: 0, bytes: [0;16] };
        assert(edge@ =~= Seq::<u8>::empty());
        edge
    }
}

impl View for EdgeBytes {
    type V = Seq<u8>;

    closed spec fn view(&self) -> Seq<u8> {
        self.bytes@.subrange(0, self.len as int)
    }
}

/// The bytes that an edge has room for.
pub open spec fn edge_part(bytes: Seq<u8>) -> Seq<u8> {
    bytes.subrange(
        0,
        if bytes.len() <= EdgeBytes::CAPACITY {
            bytes.len() as int
        } else {
            EdgeBytes::CAPACITY as int
        },
    )
}

/// The edge bytes after one more byte, which is dropped where there is no
/// room.
pub open spec fn edge_pushed(edge: Seq<u8>, byte: u8) -> Seq<u8> {
    if edge.len() < EdgeBytes::CAPACITY {
        edge.push(byte)
    } else {
        edge
    }
}

/// The edge bytes after more bytes, one by one.
pub open spec fn edge_filled(edge: Seq<u8>, bytes: Seq<u8>) -> Seq<u8>
    decreases bytes.len(),
{
    if bytes.len() == 0 {
        edge
    } else {
        edge_pushed(edge_filled(edge, bytes.drop_last()), bytes.last())
    }
}

/// Two edges with the same bytes are the same value.
pub proof fn law_edge_is_its_bytes(a: EdgeBytes, b: EdgeBytes)
    requires
        a.canonical(),
        b.canonical(),
        a@ == b@,
    ensures
        a == b,
{
    assert(a.bytes@.len() == 16 && b.bytes@.len() == 16);
    assert(a@.len() == a.len && b@.len() == b.len);
    assert forall|i: int| 0 <= i < 16 implies a.bytes@[i] == b.bytes@[i] by {
        if i < a.len {
            assert(a@[i] == a.bytes@[i]);
            assert(b@[i] == b.bytes@[i]);
        }
    }
    assert(a.bytes@ =~= b.bytes@);
    assert(a.bytes =~= b.bytes);
}

/// An edge holds no more bytes than it has room for.
pub proof fn lemma_edge_room(edge: EdgeBytes)
    requires
        edge.canonical(),
    ensures
        edge@.len() <= EdgeBytes::CAPACITY,
{
    assert(edge.bytes@.len() == 16);
}

/// Pushing the bytes of a slice one by one onto an empty edge gives the edge
/// that is made from the slice.
pub proof fn law_edge_from_pushes(bytes: Seq<u8>, made: EdgeBytes, built: EdgeBytes)
    requires
        made.canonical(),
        made@ == edge_part(bytes),
        built.canonical(),
        built@ == edge_filled(Seq::empty(), bytes),
    ensures
        made == built,
{
    lemma_edge_filled(bytes);
    law_edge_is_its_bytes(made, built);
}

proof fn lemma_edge_filled(bytes: Seq<u8>)
    ensures
        edge_filled(Seq::empty(), bytes) == edge_part(bytes),
    decreases bytes.len(),
{
    if bytes.len() == 0 {
        assert(edge_part(bytes) =~= Seq::<u8>::empty());
    } else {
        lemma_edge_filled(bytes.drop_last());
        assert(edge_filled(Seq::empty(), bytes) =~= edge_part(bytes));
    }
}

impl EdgeBytes {
    /// Maximum edge bytes stored.
    pub const CAPACITY: usize = 16;

    /// The stored length fits, and the bytes past it are zero.
    #[verifier::type_invariant]
    pub closed spec fn canonical(self) -> bool {
        &&& self.len <= 16
        &&& forall|i: int| self.len <= i < 16 ==> #[trigger] self.bytes@[i] == 0
    }

    /// The leading bytes of `bytes`, truncated to [`Self::CAPACITY`].
    pub fn from_slice(bytes: &[u8]) -> (edge: EdgeBytes)
        ensures
            edge.canonical(),
            edge@ == edge_part(bytes@),
            edge@ == edge_filled(Seq::empty(), bytes@),
    {
        let n: usize = if bytes.len() < EdgeBytes::CAPACITY {
            bytes.len()
        } else {
            EdgeBytes::CAPACITY
        };
        let mut kept: [u8; 16] = [0;16];
        let mut i: usize = 0;
        while i < n
            invariant
                i <= n <= 16,
                n <= bytes@.len(),
                forall|k: int| 0 <= k < i ==> #[trigger] kept@[k] == bytes@[k],
                forall|k: int| i <= k < 16 ==> #[trigger] kept@[k] == 0,
            decreases n - i,
        {
            kept[i] = bytes[i];
            i = i + 1;
        }
        let edge = EdgeBytes { len: n as u8, bytes: kept };
        proof {
            lemma_edge_filled(bytes@);
            assert(edge@ =~= edge_part(bytes@));
        }
        edge
    }

    /// Append one byte when capacity remains; a full edge is left as it is.
    pub fn push(&mut self, byte: u8)
        ensures
            final(self).canonical(),
            final(self)@ == edge_pushed(old(self)@, byte),
            old(self)@.len() >= EdgeBytes::CAPACITY ==> *final(self) == *old(self),
    {
        proof {
            use_type_invariant(&*self);
        }
        let len: usize = self.len as usize;
        if len < EdgeBytes::CAPACITY {
            let mut bytes = self.bytes;
            bytes[len] = byte;
            *self = EdgeBytes { len: self.len + 1, bytes };
            assert(self@ =~= old(self)@.push(byte));
        }
    }

    /// Number of edge bytes stored.
    pub fn len(self) -> (len: usize)
        ensures
            len == self@.len(),
            len <= EdgeBytes::CAPACITY,
    {
        proof {
            use_type_invariant(&self);
        }
        self.len as usize
    }

    /// True when the edge has no bytes.
    pub fn is_empty(self) -> (empty: bool)
        ensures
            empty == (self@.len() == 0),
    {
        proof {
            use_type_invariant(&self);
        }
        self.len == 0
    }

    /// The valid edge bytes.
    pub fn as_slice(&self) -> (bytes: &[u8])
        ensures
            bytes@ == self@,
            bytes@.len() <= EdgeBytes::CAPACITY,
    {
        proof {
            use_type_invariant(self);
        }
        vstd::slice::slice_subrange(self.bytes.as_slice(), 0, self.len as usize)
    }
}

} // verus!
