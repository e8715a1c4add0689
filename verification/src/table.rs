//! The bigram weight table and its binary form.

use vstd::prelude::*;
use vstd::utf8::{
    decode_utf8, decode_utf8_encode_utf8, encode_utf8, encode_utf8_decode_utf8,
    encode_utf8_valid_utf8, valid_utf8,
};

use crate::endian::{
    get_le, law_le_round_trip, le_bytes, le_value, lemma_le_len, lemma_le_limits, lemma_le_rewrite,
    put_le,
};

verus! {

/// Number of byte pairs, one weight each.
pub const PAIRS: usize = 65536;

/// Bytes before the weights: magic, version, checksum, provenance length.
pub const HEADER_BYTES: usize = 16;

/// Size of the binary form of a table without provenance.
pub const TABLE_BINARY_SIZE: usize = 262160;

/// Most bytes of a provenance text.
pub const MAX_PROVENANCE_LEN: usize = 1024;

/// A weight for every pair of bytes: high for rare pairs, low for common ones.
#[derive(Debug, PartialEq, Eq)]
pub struct WeightTable {
    matrix: Vec<u32>,
    provenance: Option<String>,
}

/// Why bytes are no table, or a text no provenance.
#[derive(Debug, Clone, PartialEq, Eq)]
#[non_exhaustive]
pub enum TableError {
    /// There is not even a header.
    Truncated {
        /// The number of bytes.
        len: usize,
    },
    /// The bytes do not start with the magic.
    BadMagic,
    /// The format version is unknown.
    UnsupportedVersion {
        /// The version.
        version: u32,
    },
    /// The provenance is longer than the format has room for.
    ProvenanceTooLong {
        /// The length of the text in bytes.
        len: usize,
        /// The greatest length.
        max: usize,
    },
    /// The number of bytes is not the one the header gives.
    InvalidLen {
        /// The number the header gives.
        expected: usize,
        /// The number of bytes.
        actual: usize,
    },
    /// The checksum does not match the bytes after the header.
    ChecksumMismatch {
        /// The checksum in the header.
        stored: u32,
        /// The checksum of the bytes.
        computed: u32,
    },
    /// The provenance is no text.
    InvalidProvenance,
}

/// The magic, `SPNG`.
pub open spec fn magic() -> Seq<u8> {
    seq![0x53u8, 0x50u8, 0x4Eu8, 0x47u8]
}

/// The CRC-32 (IEEE) of some bytes.
pub uninterp spec fn crc32(bytes: Seq<u8>) -> u32;

/// `crc32fast::hash`: the CRC-32 of the bytes. It depends on the bytes alone;
/// the polynomial division is the crate's and is not stated.
#[verifier::external_body]
pub(crate) fn checksum(bytes: &[u8]) -> (crc: u32)
    ensures
        crc == crc32(bytes@),
{
    crc32fast::hash(bytes)
}

/// `String::from_utf8`: the text that the bytes encode, when they are valid
/// UTF-8.
#[verifier::external_body]
fn text_of(bytes: Vec<u8>) -> (text: Option<String>)
    ensures
        text is Some <==> valid_utf8(bytes@),
        text matches Some(text) ==> encode_utf8(text@) == bytes@,
{
    String::from_utf8(bytes).ok()
}

/// The first `n` weights in little-endian bytes.
pub open spec fn weight_bytes(weights: Seq<u32>, n: int) -> Seq<u8>
    decreases n,
{
    if n <= 0 {
        Seq::empty()
    } else {
        weight_bytes(weights, n - 1) + le_bytes(weights[n - 1] as nat, 4)
    }
}

/// The bytes of an optional provenance.
pub open spec fn provenance_bytes(provenance: Option<Seq<char>>) -> Seq<u8> {
    match provenance {
        Some(text) => encode_utf8(text),
        None => Seq::empty(),
    }
}

/// The format version: a table with provenance has the second.
pub open spec fn format_version(provenance: Option<Seq<char>>) -> u32 {
    if provenance is Some {
        2
    } else {
        1
    }
}

/// The weights and the provenance in bytes.
pub open spec fn table_data(weights: Seq<u32>, provenance: Option<Seq<char>>) -> Seq<u8> {
    weight_bytes(weights, PAIRS as int) + provenance_bytes(provenance)
}

/// The header of a table.
pub open spec fn table_header(provenance: Option<Seq<char>>, data: Seq<u8>) -> Seq<u8> {
    magic() + le_bytes(format_version(provenance) as nat, 4) + le_bytes(crc32(data) as nat, 4)
        + le_bytes(provenance_bytes(provenance).len(), 4)
}

/// The binary form of a table: `SPNG`, the version, the checksum of what
/// follows the header, the length of the provenance, the weights, the
/// provenance.
pub open spec fn encoded(weights: Seq<u32>, provenance: Option<Seq<char>>) -> Seq<u8> {
    let data = table_data(weights, provenance);
    table_header(provenance, data) + data
}

/// The number in the four bytes from `at` on.
pub open spec fn field(bytes: Seq<u8>, at: int) -> nat {
    le_value(bytes.subrange(at, at + 4))
}

/// The bytes after the header.
pub open spec fn data_of(bytes: Seq<u8>) -> Seq<u8> {
    bytes.subrange(HEADER_BYTES as int, bytes.len() as int)
}

/// The bytes after the weights.
pub open spec fn tail_of(bytes: Seq<u8>) -> Seq<u8> {
    bytes.subrange(TABLE_BINARY_SIZE as int, bytes.len() as int)
}

/// The longest provenance of a format version.
pub open spec fn provenance_limit(version: nat) -> nat {
    if version == 1 {
        0
    } else {
        MAX_PROVENANCE_LEN as nat
    }
}

/// Why the bytes are no table, when they are none.
pub open spec fn table_error(bytes: Seq<u8>) -> Option<TableError> {
    if bytes.len() < HEADER_BYTES {
        Some(TableError::Truncated { len: bytes.len() as usize })
    } else if bytes.subrange(0, 4) != magic() {
        Some(TableError::BadMagic)
    } else if field(bytes, 4) != 1 && field(bytes, 4) != 2 {
        Some(TableError::UnsupportedVersion { version: field(bytes, 4) as u32 })
    } else if field(bytes, 12) > provenance_limit(field(bytes, 4)) {
        Some(
            TableError::ProvenanceTooLong {
                len: field(bytes, 12) as usize,
                max: provenance_limit(field(bytes, 4)) as usize,
            },
        )
    } else if bytes.len() != TABLE_BINARY_SIZE + field(bytes, 12) {
        Some(
            TableError::InvalidLen {
                expected: (TABLE_BINARY_SIZE + field(bytes, 12)) as usize,
                actual: bytes.len() as usize,
            },
        )
    } else if field(bytes, 8) != crc32(data_of(bytes)) {
        Some(
            TableError::ChecksumMismatch {
                stored: field(bytes, 8) as u32,
                computed: crc32(data_of(bytes)),
            },
        )
    } else if !valid_utf8(tail_of(bytes)) {
        Some(TableError::InvalidProvenance)
    } else {
        None
    }
}

/// The weights in the bytes of a table.
pub open spec fn read_weights(bytes: Seq<u8>) -> Seq<u32> {
    Seq::new(PAIRS as nat, |i: int| field(bytes, HEADER_BYTES + 4 * i) as u32)
}

/// The provenance in the bytes of a table.
pub open spec fn read_provenance(bytes: Seq<u8>) -> Option<Seq<char>> {
    if field(bytes, 4) == 2 {
        Some(decode_utf8(tail_of(bytes)))
    } else {
        None
    }
}

pub proof fn lemma_weight_bytes(weights: Seq<u32>, n: int)
    requires
        0 <= n <= weights.len(),
    ensures
        weight_bytes(weights, n).len() == 4 * n,
        forall|i: int|
            0 <= i < n ==> #[trigger] weight_bytes(weights, n).subrange(4 * i, 4 * i + 4)
                == le_bytes(weights[i] as nat, 4),
    decreases n,
{
    if n > 0 {
        let head = weight_bytes(weights, n - 1);
        let last = le_bytes(weights[n - 1] as nat, 4);
        lemma_weight_bytes(weights, n - 1);
        lemma_le_len(weights[n - 1] as nat, 4);
        assert forall|i: int| 0 <= i < n implies #[trigger] weight_bytes(weights, n).subrange(
            4 * i,
            4 * i + 4,
        ) == le_bytes(weights[i] as nat, 4) by {
            if i < n - 1 {
                assert((head + last).subrange(4 * i, 4 * i + 4) =~= head.subrange(4 * i, 4 * i + 4));
            } else {
                assert((head + last).subrange(4 * i, 4 * i + 4) =~= last);
            }
        }
    }
}

/// A four-byte field of an encoded table reads as what was written.
proof fn lemma_field(bytes: Seq<u8>, at: int, n: nat)
    requires
        0 <= at,
        at + 4 <= bytes.len(),
        n < 0x1_0000_0000,
        bytes.subrange(at, at + 4) == le_bytes(n, 4),
    ensures
        field(bytes, at) == n,
{
    lemma_le_limits();
    law_le_round_trip(n, 4);
}

/// The fields of an encoded table's header.
proof fn lemma_header(weights: Seq<u32>, provenance: Option<Seq<char>>)
    requires
        weights.len() == PAIRS,
        provenance_bytes(provenance).len() <= MAX_PROVENANCE_LEN,
    ensures
        ({
            let bytes = encoded(weights, provenance);
            let data = table_data(weights, provenance);
            &&& bytes.len() == TABLE_BINARY_SIZE + provenance_bytes(provenance).len()
            &&& bytes.subrange(0, 4) == magic()
            &&& field(bytes, 4) == format_version(provenance)
            &&& field(bytes, 8) == crc32(data)
            &&& field(bytes, 12) == provenance_bytes(provenance).len()
            &&& data_of(bytes) == data
            &&& tail_of(bytes) == provenance_bytes(provenance)
        }),
{
    let data = table_data(weights, provenance);
    let text = provenance_bytes(provenance);
    let version = format_version(provenance) as nat;
    let crc = crc32(data) as nat;
    let bytes = encoded(weights, provenance);
    lemma_le_len(version, 4);
    lemma_le_len(crc, 4);
    lemma_le_len(text.len(), 4);
    lemma_weight_bytes(weights, PAIRS as int);
    assert(bytes.len() == HEADER_BYTES + data.len());
    assert(bytes.subrange(0, 4) =~= magic());
    assert(bytes.subrange(4, 8) =~= le_bytes(version, 4));
    assert(bytes.subrange(8, 12) =~= le_bytes(crc, 4));
    assert(bytes.subrange(12, 16) =~= le_bytes(text.len(), 4));
    lemma_field(bytes, 4, version);
    lemma_field(bytes, 8, crc);
    lemma_field(bytes, 12, text.len());
    assert(data_of(bytes) =~= data);
    assert(tail_of(bytes) =~= text);
}

/// Reading a table's bytes gives back its weights and its provenance.
pub proof fn law_table_round_trip(weights: Seq<u32>, provenance: Option<Seq<char>>)
    requires
        weights.len() == PAIRS,
        provenance_bytes(provenance).len() <= MAX_PROVENANCE_LEN,
    ensures
        table_error(encoded(weights, provenance)) is None,
        read_weights(encoded(weights, provenance)) == weights,
        read_provenance(encoded(weights, provenance)) == provenance,
{
    let bytes = encoded(weights, provenance);
    let data = table_data(weights, provenance);
    lemma_header(weights, provenance);
    match provenance {
        Some(text) => {
            encode_utf8_valid_utf8(text);
            encode_utf8_decode_utf8(text);
        },
        None => {
            assert(valid_utf8(Seq::<u8>::empty()));
        },
    }
    lemma_weight_bytes(weights, PAIRS as int);
    let all = weight_bytes(weights, PAIRS as int);
    assert forall|i: int| 0 <= i < PAIRS implies #[trigger] read_weights(bytes)[i] == weights[i] by {
        let at = HEADER_BYTES + 4 * i;
        assert(all.subrange(4 * i, 4 * i + 4) == le_bytes(weights[i] as nat, 4));
        assert(bytes.subrange(at, at + 4) =~= all.subrange(4 * i, 4 * i + 4)) by {
            assert(data_of(bytes).subrange(4 * i, 4 * i + 4) =~= bytes.subrange(at, at + 4));
            assert(data.subrange(4 * i, 4 * i + 4) =~= all.subrange(4 * i, 4 * i + 4));
        }
        lemma_field(bytes, at, weights[i] as nat);
    }
    assert(read_weights(bytes) =~= weights);
}

/// The position of a pair's weight.
pub open spec fn pair_at(c1: u8, c2: u8) -> int {
    c1 * 256 + c2
}

/// The bytes of the weights, read and written again.
proof fn lemma_weights_again(bytes: Seq<u8>, n: int)
    requires
        0 <= n <= PAIRS,
        bytes.len() >= TABLE_BINARY_SIZE,
    ensures
        weight_bytes(read_weights(bytes), n) == bytes.subrange(
            HEADER_BYTES as int,
            HEADER_BYTES + 4 * n,
        ),
    decreases n,
{
    let h = HEADER_BYTES as int;
    if n == 0 {
        assert(bytes.subrange(h, h) =~= Seq::<u8>::empty());
    } else {
        lemma_weights_again(bytes, n - 1);
        let word = bytes.subrange(h + 4 * (n - 1), h + 4 * (n - 1) + 4);
        lemma_le_rewrite(word);
        lemma_le_limits();
        assert(read_weights(bytes)[n - 1] as nat == le_value(word));
        assert(bytes.subrange(h, h + 4 * n) =~= bytes.subrange(h, h + 4 * (n - 1)) + word);
    }
}

/// A table of which the end is missing is refused, and so is one with more behind
/// it; the refusal tells how long the bytes are, and how long they should be.
pub proof fn law_cut_or_grown_table_is_refused(
    weights: Seq<u32>,
    provenance: Option<Seq<char>>,
    k: int,
    more: Seq<u8>,
)
    requires
        weights.len() == PAIRS,
        provenance_bytes(provenance).len() <= MAX_PROVENANCE_LEN,
        0 <= k < encoded(weights, provenance).len(),
        more.len() > 0,
    ensures
        ({
            let bytes = encoded(weights, provenance);
            let expected = bytes.len() as usize;
            &&& table_error(bytes.take(k)) == Some(
                if k < HEADER_BYTES {
                    TableError::Truncated { len: k as usize }
                } else {
                    TableError::InvalidLen { expected, actual: k as usize }
                },
            )
            &&& table_error(bytes + more) == Some(
                TableError::InvalidLen { expected, actual: (bytes.len() + more.len()) as usize },
            )
        }),
{
    let bytes = encoded(weights, provenance);
    lemma_header(weights, provenance);
    let grown = bytes + more;
    assert(grown.subrange(0, 4) =~= bytes.subrange(0, 4));
    assert(grown.subrange(4, 8) =~= bytes.subrange(4, 8));
    assert(grown.subrange(12, 16) =~= bytes.subrange(12, 16));
    if k >= HEADER_BYTES {
        let cut = bytes.take(k);
        assert(cut.subrange(0, 4) =~= bytes.subrange(0, 4));
        assert(cut.subrange(4, 8) =~= bytes.subrange(4, 8));
        assert(cut.subrange(12, 16) =~= bytes.subrange(12, 16));
    }
}

/// A header in front of weights that it was not written for is refused, and the
/// refusal tells both checksums.
pub proof fn law_other_weights_are_refused(
    weights: Seq<u32>,
    others: Seq<u32>,
    provenance: Option<Seq<char>>,
)
    requires
        weights.len() == PAIRS,
        others.len() == PAIRS,
        provenance_bytes(provenance).len() <= MAX_PROVENANCE_LEN,
        crc32(table_data(weights, provenance)) != crc32(table_data(others, provenance)),
    ensures
        table_error(
            encoded(weights, provenance).take(HEADER_BYTES as int) + encoded(
                others,
                provenance,
            ).skip(HEADER_BYTES as int),
        ) == Some(
            TableError::ChecksumMismatch {
                stored: crc32(table_data(weights, provenance)),
                computed: crc32(table_data(others, provenance)),
            },
        ),
{
    let (a, b) = (encoded(weights, provenance), encoded(others, provenance));
    lemma_header(weights, provenance);
    lemma_header(others, provenance);
    let h = HEADER_BYTES as int;
    let mixed = a.take(h) + b.skip(h);
    assert(mixed.subrange(0, 4) =~= a.subrange(0, 4));
    assert(mixed.subrange(4, 8) =~= a.subrange(4, 8));
    assert(mixed.subrange(8, 12) =~= a.subrange(8, 12));
    assert(mixed.subrange(12, 16) =~= a.subrange(12, 16));
    assert(data_of(mixed) =~= data_of(b));
}

/// Bytes that do not start as a table does are refused for that.
pub proof fn law_foreign_bytes_are_refused(
    weights: Seq<u32>,
    provenance: Option<Seq<char>>,
    bytes: Seq<u8>,
)
    requires
        weights.len() == PAIRS,
        provenance_bytes(provenance).len() <= MAX_PROVENANCE_LEN,
        bytes.len() >= HEADER_BYTES,
        bytes.take(4) != encoded(weights, provenance).take(4),
    ensures
        table_error(bytes) == Some(TableError::BadMagic),
{
    lemma_header(weights, provenance);
    assert(bytes.take(4) =~= bytes.subrange(0, 4));
    let own = encoded(weights, provenance);
    assert(own.take(4) =~= own.subrange(0, 4));
}

/// Writing a table that was read gives back the bytes it was read from.
pub proof fn law_table_bytes_are_unique(bytes: Seq<u8>)
    requires
        table_error(bytes) is None,
    ensures
        encoded(read_weights(bytes), read_provenance(bytes)) == bytes,
{
    let weights = read_weights(bytes);
    let provenance = read_provenance(bytes);
    let tail = tail_of(bytes);
    let data = table_data(weights, provenance);
    lemma_weights_again(bytes, PAIRS as int);
    if field(bytes, 4) == 2 {
        decode_utf8_encode_utf8(tail);
    } else {
        assert(tail =~= Seq::<u8>::empty());
    }
    assert(provenance_bytes(provenance) == tail);
    assert(data =~= data_of(bytes)) by {
        assert(data_of(bytes) =~= bytes.subrange(HEADER_BYTES as int, TABLE_BINARY_SIZE as int)
            + tail);
    }
    lemma_le_rewrite(bytes.subrange(4, 8));
    lemma_le_rewrite(bytes.subrange(8, 12));
    lemma_le_rewrite(bytes.subrange(12, 16));
    assert(table_header(provenance, data) =~= bytes.subrange(0, 16)) by {
        assert(bytes.subrange(0, 16) =~= bytes.subrange(0, 4) + bytes.subrange(4, 8)
            + bytes.subrange(8, 12) + bytes.subrange(12, 16));
    }
    assert(encoded(weights, provenance) =~= bytes);
}

impl WeightTable {
    #[verifier::type_invariant]
    spec fn complete(self) -> bool {
        self.matrix@.len() == PAIRS && provenance_bytes(self.source()).len() <= MAX_PROVENANCE_LEN
    }

    /// Where the weights come from, when that is recorded.
    pub closed spec fn source(self) -> Option<Seq<char>> {
        match self.provenance {
            Some(text) => Some(text@),
            None => None,
        }
    }

    /// The weights by pair, first byte major.
    pub closed spec fn weights(self) -> Seq<u32> {
        self.matrix@
    }

    /// The weight of one pair.
    pub open spec fn weight_of(self, c1: u8, c2: u8) -> u32 {
        self.weights()[pair_at(c1, c2)]
    }

    /// The table that gives each pair the weight `weight` computes for it.
    pub fn from_weight_fn<F: Fn(u8, u8) -> u32>(weight: F) -> (table: WeightTable)
        requires
            forall|c1: u8, c2: u8| weight.requires((c1, c2)),
        ensures
            forall|c1: u8, c2: u8| #[trigger]
                weight.ensures((c1, c2), table.weight_of(c1, c2)),
            table.source() is None,
            table.weights().len() == PAIRS,
    {
        let mut matrix: Vec<u32> = Vec::new();
        let mut at: usize = 0;
        while at < PAIRS
            invariant
                at <= PAIRS,
                matrix@.len() == at,
                forall|c1: u8, c2: u8| weight.requires((c1, c2)),
                forall|c1: u8, c2: u8|
                    pair_at(c1, c2) < at ==> #[trigger] weight.ensures(
                        (c1, c2),
                        matrix@[pair_at(c1, c2)],
                    ),
            decreases PAIRS - at,
        {
            let c1: u8 = (at / 256) as u8;
            let c2: u8 = (at % 256) as u8;
            matrix.push(weight(c1, c2));
            assert forall|a: u8, b: u8| pair_at(a, b) < at + 1 implies #[trigger] weight.ensures(
                (a, b),
                matrix@[pair_at(a, b)],
            ) by {
                if pair_at(a, b) == at {
                    assert(a == c1 && b == c2);
                }
            }
            at = at + 1;
        }
        WeightTable { matrix, provenance: None }
    }

    /// The table with these weights, first byte major.
    pub fn from_matrix(matrix: Vec<u32>) -> (table: WeightTable)
        requires
            matrix@.len() == PAIRS,
        ensures
            table.weights() == matrix@,
            table.source() is None,
    {
        WeightTable { matrix, provenance: None }
    }

    /// The weights by pair, first byte major.
    pub fn matrix(&self) -> (matrix: &Vec<u32>)
        ensures
            matrix@ == self.weights(),
            matrix@.len() == PAIRS,
    {
        proof {
            use_type_invariant(self);
        }
        &self.matrix
    }

    /// The table with a record of where its weights come from; a text over
    /// [`MAX_PROVENANCE_LEN`] bytes is refused.
    pub fn with_provenance(self, provenance: &str) -> (out: Result<WeightTable, TableError>)
        ensures
            match out {
                Ok(table) => {
                    &&& encode_utf8(provenance@).len() <= MAX_PROVENANCE_LEN
                    &&& table.weights() == self.weights()
                    &&& table.source() == Some(provenance@)
                },
                Err(err) => {
                    &&& encode_utf8(provenance@).len() > MAX_PROVENANCE_LEN
                    &&& err == (TableError::ProvenanceTooLong {
                        len: encode_utf8(provenance@).len() as usize,
                        max: MAX_PROVENANCE_LEN,
                    })
                },
            },
    {
        proof {
            use_type_invariant(&self);
        }
        let len: usize = provenance.as_bytes().len();
        if len > MAX_PROVENANCE_LEN {
            return Err(TableError::ProvenanceTooLong { len, max: MAX_PROVENANCE_LEN });
        }
        Ok(WeightTable { matrix: self.matrix, provenance: Some(provenance.to_owned()) })
    }

    /// Where the weights come from, when that is recorded.
    pub fn provenance(&self) -> (provenance: Option<&str>)
        ensures
            match provenance {
                Some(text) => self.source() == Some(text@),
                None => self.source() is None,
            },
    {
        match &self.provenance {
            Some(text) => Some(text.as_str()),
            None => None,
        }
    }

    /// The version of the table's binary form.
    pub fn version(&self) -> (version: u32)
        ensures
            version == format_version(self.source()),
    {
        match &self.provenance {
            Some(_) => 2,
            None => 1,
        }
    }

    /// The table's binary form.
    pub fn to_bytes(&self) -> (bytes: Vec<u8>)
        ensures
            bytes@ == encoded(self.weights(), self.source()),
    {
        proof {
            use_type_invariant(self);
        }
        let mut data: Vec<u8> = Vec::new();
        let mut i: usize = 0;
        while i < PAIRS
            invariant
                i <= PAIRS == self.matrix@.len(),
                data@ == weight_bytes(self.matrix@, i as int),
            decreases PAIRS - i,
        {
            put_le(&mut data, self.matrix[i] as u64, 4);
            i = i + 1;
        }
        let mut text_len: usize = 0;
        if let Some(text) = &self.provenance {
            let bytes = text.as_str().as_bytes();
            text_len = bytes.len();
            append_bytes(&mut data, bytes);
        }
        assert(data@ =~= table_data(self.weights(), self.source()));
        let mut bytes: Vec<u8> = Vec::new();
        bytes.push(0x53);
        bytes.push(0x50);
        bytes.push(0x4E);
        bytes.push(0x47);
        assert(bytes@ =~= magic());
        put_le(&mut bytes, self.version() as u64, 4);
        put_le(&mut bytes, checksum(data.as_slice()) as u64, 4);
        put_le(&mut bytes, text_len as u64, 4);
        append_bytes(&mut bytes, data.as_slice());
        assert(bytes@ =~= encoded(self.weights(), self.source()));
        bytes
    }

    /// Read a table from its binary form.
    pub fn from_bytes(bytes: &[u8]) -> (out: Result<WeightTable, TableError>)
        ensures
            match out {
                Ok(table) => {
                    &&& table_error(bytes@) is None
                    &&& table.weights() == read_weights(bytes@)
                    &&& table.source() == read_provenance(bytes@)
                },
                Err(err) => table_error(bytes@) == Some(err),
            },
    {
        let len: usize = bytes.len();
        if len < HEADER_BYTES {
            return Err(TableError::Truncated { len });
        }
        let spelled = bytes[0] == 0x53 && bytes[1] == 0x50 && bytes[2] == 0x4E && bytes[3] == 0x47;
        assert(spelled == (bytes@.subrange(0, 4) == magic())) by {
            if spelled {
                assert(bytes@.subrange(0, 4) =~= magic());
            } else {
                assert(bytes@.subrange(0, 4)[0] == bytes@[0]);
                assert(bytes@.subrange(0, 4)[1] == bytes@[1]);
                assert(bytes@.subrange(0, 4)[2] == bytes@[2]);
                assert(bytes@.subrange(0, 4)[3] == bytes@[3]);
            }
        }
        if !spelled {
            return Err(TableError::BadMagic);
        }
        proof {
            lemma_le_limits();
            lemma_le_rewrite(bytes@.subrange(4, 8));
            lemma_le_rewrite(bytes@.subrange(8, 12));
            lemma_le_rewrite(bytes@.subrange(12, 16));
        }
        let version: u32 = get_le(bytes, 4, 4) as u32;
        if version != 1 && version != 2 {
            return Err(TableError::UnsupportedVersion { version });
        }
        let stored: u32 = get_le(bytes, 8, 4) as u32;
        let text_len: usize = get_le(bytes, 12, 4) as usize;
        let max: usize = if version == 1 {
            0
        } else {
            MAX_PROVENANCE_LEN
        };
        if text_len > max {
            return Err(TableError::ProvenanceTooLong { len: text_len, max });
        }
        if len != TABLE_BINARY_SIZE + text_len {
            return Err(
                TableError::InvalidLen { expected: TABLE_BINARY_SIZE + text_len, actual: len },
            );
        }
        let data = crate::query::gram::copy_range(bytes, HEADER_BYTES, len);
        let computed: u32 = checksum(data.as_slice());
        if stored != computed {
            return Err(TableError::ChecksumMismatch { stored, computed });
        }
        let tail = crate::query::gram::copy_range(bytes, TABLE_BINARY_SIZE, len);
        let text = match text_of(tail) {
            Some(text) => text,
            None => {
                return Err(TableError::InvalidProvenance);
            },
        };
        let matrix = read_matrix(bytes);
        proof {
            encode_utf8_decode_utf8(text@);
            assert(encode_utf8(text@) == tail_of(bytes@));
            assert(matrix@ =~= read_weights(bytes@));
        }
        let provenance = if version == 2 {
            Some(text)
        } else {
            None
        };
        Ok(WeightTable { matrix, provenance })
    }

    /// The weight of one pair.
    pub fn weight(&self, c1: u8, c2: u8) -> (w: u32)
        ensures
            w == self.weight_of(c1, c2),
    {
        proof {
            use_type_invariant(self);
        }
        self.matrix[c1 as usize * 256 + c2 as usize]
    }
}

fn append_bytes(out: &mut Vec<u8>, bytes: &[u8])
    ensures
        final(out)@ == old(out)@ + bytes@,
{
    let ghost start = out@;
    let mut i: usize = 0;
    assert(out@ =~= start + bytes@.take(0));
    while i < bytes.len()
        invariant
            i <= bytes@.len(),
            out@ == start + bytes@.take(i as int),
        decreases bytes@.len() - i,
    {
        out.push(bytes[i]);
        i = i + 1;
        assert(out@ =~= start + bytes@.take(i as int));
    }
    assert(bytes@.take(i as int) =~= bytes@);
}

fn read_matrix(bytes: &[u8]) -> (matrix: Vec<u32>)
    requires
        bytes@.len() >= TABLE_BINARY_SIZE,
    ensures
        matrix@ == read_weights(bytes@),
{
    let mut matrix: Vec<u32> = Vec::new();
    let mut i: usize = 0;
    while i < PAIRS
        invariant
            i <= PAIRS,
            bytes@.len() >= TABLE_BINARY_SIZE,
            matrix@.len() == i,
            forall|k: int| 0 <= k < i ==> #[trigger] matrix@[k] == read_weights(bytes@)[k],
        decreases PAIRS - i,
    {
        proof {
            lemma_le_limits();
            lemma_le_rewrite(bytes@.subrange(HEADER_BYTES + 4 * i, HEADER_BYTES + 4 * i + 4));
        }
        matrix.push(get_le(bytes, HEADER_BYTES + 4 * i, 4) as u32);
        i = i + 1;
    }
    assert(matrix@ =~= read_weights(bytes@));
    matrix
}

} // verus!
