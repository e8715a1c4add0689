//! Count-to-weight minting policy.

use vstd::prelude::*;
use vstd::utf8::encode_utf8;

use crate::learn::settings::LearnSettings;
use crate::learn::BigramCounter;
use crate::table::{encoded, pair_at, TableError, WeightTable, MAX_PROVENANCE_LEN, PAIRS};

verus! {

/// How weights at the seams of words and lines are lowered.
#[derive(Debug, Clone, Copy, PartialEq, Eq, Structural)]
pub struct Tuning {
    /// What the weight of a boundary pair is divided by.
    pub boundary_discount: u32,
    /// The least weight a discount leaves.
    pub boundary_floor: u32,
}

impl Tuning {
    /// The tuning that leaves every weight as it is.
    pub fn off() -> (tuning: Tuning)
        ensures
            tuning == tuning_off(),
    {
        Tuning {
            boundary_discount: LearnSettings::MINT_OFF_BOUNDARY_DISCOUNT,
            boundary_floor: LearnSettings::MINT_OFF_BOUNDARY_FLOOR,
        }
    }
}

/// The tuning that leaves every weight as it is.
pub open spec fn tuning_off() -> Tuning {
    Tuning {
        boundary_discount: LearnSettings::MINT_OFF_BOUNDARY_DISCOUNT,
        boundary_floor: LearnSettings::MINT_OFF_BOUNDARY_FLOOR,
    }
}

impl Default for Tuning {
    fn default() -> (tuning: Tuning)
        ensures
            tuning == (Tuning {
                boundary_discount: LearnSettings::MINT_DEFAULT_BOUNDARY_DISCOUNT,
                boundary_floor: LearnSettings::MINT_DEFAULT_BOUNDARY_FLOOR,
            }),
    {
        Tuning {
            boundary_discount: LearnSettings::MINT_DEFAULT_BOUNDARY_DISCOUNT,
            boundary_floor: LearnSettings::MINT_DEFAULT_BOUNDARY_FLOOR,
        }
    }
}

/// What a minted table records and how its weights are tuned.
#[derive(Debug, Clone)]
pub struct MintOptions<'a> {
    /// Where the weights come from.
    pub provenance: &'a str,
    /// How the weights are tuned.
    pub tuning: Tuning,
}

/// `_`, `.`, `/`, `-` or `:`.
pub open spec fn separates(c: u8) -> bool {
    c == 0x5F || c == 0x2E || c == 0x2F || c == 0x2D || c == 0x3A
}

/// A line feed or a carriage return.
pub open spec fn ends_a_line(c: u8) -> bool {
    c == 10 || c == 13
}

/// The pair lies at a separator, at a line's end, or where a lower-case letter
/// meets an upper-case one.
pub open spec fn at_boundary(c1: u8, c2: u8) -> bool {
    separates(c1) || separates(c2) || ends_a_line(c1) || ends_a_line(c2) || ((0x61 <= c1 <= 0x7A)
        && (0x41 <= c2 <= 0x5A))
}

/// The byte is one of the characters.
pub open spec fn is_one_of(c: u8, chars: Seq<char>) -> bool {
    exists|i: int| 0 <= i < chars.len() && c == #[trigger] chars[i] as int
}

/// A mark between words or at the end of a line makes a boundary on both of its
/// sides, whatever stands next to it. Between other bytes there is a boundary only
/// from a small letter to a capital, and not the other way round.
pub proof fn law_boundaries_are_marks_and_humps(c: u8, other: u8)
    ensures
        is_one_of(c, "_./-:\n\r"@) ==> at_boundary(c, other) && at_boundary(other, c),
        !is_one_of(c, "_./-:\n\r"@) && !is_one_of(other, "_./-:\n\r"@) ==> (at_boundary(c, other)
            <==> 'a' as int <= c <= 'z' as int && 'A' as int <= other <= 'Z' as int),
{
    reveal_strlit("_./-:\n\r");
    let marks = "_./-:\n\r"@;
    assert(marks[0] == '_' && marks[1] == '.' && marks[2] == '/' && marks[3] == '-' && marks[4]
        == ':' && marks[5] == '\n' && marks[6] == '\r');
}

/// Whether the pair lies at a boundary.
pub fn is_boundary_pair(c1: u8, c2: u8) -> (boundary: bool)
    ensures
        boundary == at_boundary(c1, c2),
{
    is_separator(c1) || is_separator(c2) || is_line_terminator(c1) || is_line_terminator(c2) || (
    0x61 <= c1 && c1 <= 0x7A && 0x41 <= c2 && c2 <= 0x5A)
}

fn is_separator(c: u8) -> (separator: bool)
    ensures
        separator == separates(c),
{
    c == 0x5F || c == 0x2E || c == 0x2F || c == 0x2D || c == 0x3A
}

fn is_line_terminator(c: u8) -> (terminator: bool)
    ensures
        terminator == ends_a_line(c),
{
    c == 10 || c == 13
}

/// The weight of a pair after tuning.
pub open spec fn tuned_weight(raw: u32, c1: u8, c2: u8, tuning: Tuning) -> u32 {
    if tuning.boundary_discount <= 1 || !at_boundary(c1, c2) {
        raw
    } else if raw / tuning.boundary_discount < tuning.boundary_floor {
        tuning.boundary_floor
    } else {
        raw / tuning.boundary_discount
    }
}

/// The weight of a pair after tuning: a boundary pair's is divided by the
/// discount, but kept at the floor or above.
pub fn tune_weight(raw: u32, c1: u8, c2: u8, tuning: Tuning) -> (weight: u32)
    ensures
        weight == tuned_weight(raw, c1, c2, tuning),
{
    if tuning.boundary_discount <= 1 || !is_boundary_pair(c1, c2) {
        return raw;
    }
    let discounted: u32 = raw / tuning.boundary_discount;
    if discounted < tuning.boundary_floor {
        tuning.boundary_floor
    } else {
        discounted
    }
}

/// The weight of a pair: the inverse of its frequency, the greatest weight
/// when it was never seen.
pub open spec fn rarity(total: u64, count: u64) -> u32 {
    if count == 0 || total / count > u32::MAX {
        u32::MAX
    } else {
        (total / count) as u32
    }
}

/// The weight of a pair: the inverse of its frequency.
pub fn compute_weight(total: u64, count: u64) -> (weight: u32)
    ensures
        weight == rarity(total, count),
{
    if count == 0 {
        return u32::MAX;
    }
    let ratio: u64 = total / count;
    if ratio > 0xFFFF_FFFF {
        u32::MAX
    } else {
        ratio as u32
    }
}

/// A pair seen less often never weighs less.
pub proof fn law_rarer_weighs_more(total: u64, often: u64, seldom: u64)
    requires
        seldom <= often,
    ensures
        rarity(total, often) <= rarity(total, seldom),
{
    if seldom > 0 {
        assert(total / often <= total / seldom) by (nonlinear_arith)
            requires
                0 < seldom <= often,
        ;
    }
}

/// A pair weighs as many times as its count goes into the total, as far as a
/// weight goes; one that was never seen weighs the most.
pub proof fn law_weight_is_the_inverse_frequency(total: u64, count: u64)
    ensures
        count == 0 ==> rarity(total, count) == u32::MAX,
        count > 0 ==> rarity(total, count) * count <= total,
        count > 0 && rarity(total, count) < u32::MAX ==> total < (rarity(total, count) + 1) * count,
{
    if count > 0 {
        let w = (total / count) as int;
        let r = rarity(total, count) as int;
        assert(w * count <= total < (w + 1) * count) by (nonlinear_arith)
            requires
                w == total as int / count as int,
                count > 0,
        ;
        assert(r * count <= w * count) by (nonlinear_arith)
            requires
                r <= w,
                count > 0,
        ;
    }
}

/// Only pairs at a boundary are discounted; such a weight is divided by the
/// discount and never falls below the floor.
pub proof fn law_discount_is_for_boundaries(raw: u32, c1: u8, c2: u8, tuning: Tuning)
    ensures
        tuned_weight(raw, c1, c2, tuning) != raw ==> at_boundary(c1, c2),
        at_boundary(c1, c2) && tuning.boundary_discount > 1 ==> tuned_weight(raw, c1, c2, tuning)
            >= tuning.boundary_floor,
        at_boundary(c1, c2) && tuning.boundary_discount > 1 && tuned_weight(raw, c1, c2, tuning)
            > tuning.boundary_floor ==> tuned_weight(raw, c1, c2, tuning) * tuning.boundary_discount
            <= raw < (tuned_weight(raw, c1, c2, tuning) + 1) * tuning.boundary_discount,
{
    let d = tuning.boundary_discount as int;
    if d > 1 {
        let w = (raw / tuning.boundary_discount) as int;
        assert(w * d <= raw < (w + 1) * d) by (nonlinear_arith)
            requires
                w == raw as int / d,
                d > 1,
        ;
    }
}

/// A minted table gives each pair the weight of its own count.
pub proof fn law_minted_weights_follow_the_counts(
    counts: Seq<u64>,
    total: u64,
    tuning: Tuning,
    c1: u8,
    c2: u8,
)
    ensures
        minted(counts, total, tuning).len() == PAIRS,
        minted(counts, total, tuning)[pair_at(c1, c2)] == tuned_weight(
            rarity(total, counts[pair_at(c1, c2)]),
            c1,
            c2,
            tuning,
        ),
{
    let i = pair_at(c1, c2);
    assert(i / 256 == c1 && i % 256 == c2);
}

/// The tuning that is off changes no weight.
pub proof fn law_off_changes_nothing(raw: u32, c1: u8, c2: u8)
    ensures
        tuned_weight(raw, c1, c2, tuning_off()) == raw,
{
}

/// The weights minted from counts.
pub open spec fn minted(counts: Seq<u64>, total: u64, tuning: Tuning) -> Seq<u32> {
    Seq::new(
        PAIRS as nat,
        |i: int|
            tuned_weight(rarity(total, counts[i]), (i / 256) as u8, (i % 256) as u8, tuning),
    )
}

impl BigramCounter {
    /// Serialize the learned weight table in the `SPNG` binary format.
    #[must_use]
    pub fn to_table_bytes(&self) -> (bytes: Vec<u8>)
        requires
            self.wf(),
        ensures
            bytes@ == encoded(minted(self.tallies(), self.pairs(), tuning_off()), None),
    {
        self.weight_table(Tuning::off()).to_bytes()
    }

    /// The learned weight table.
    pub fn weight_table(&self, tuning: Tuning) -> (table: WeightTable)
        requires
            self.wf(),
        ensures
            table.weights() == minted(self.tallies(), self.pairs(), tuning),
            table.source() is None,
    {
        let total: u64 = self.pairs_processed();
        let mut matrix: Vec<u32> = Vec::new();
        let mut at: usize = 0;
        while at < PAIRS
            invariant
                at <= PAIRS,
                self.wf(),
                total == self.pairs(),
                matrix@.len() == at,
                forall|i: int|
                    0 <= i < at ==> #[trigger] matrix@[i] == minted(self.tallies(), total, tuning)[i],
            decreases PAIRS - at,
        {
            let c1: u8 = (at / 256) as u8;
            let c2: u8 = (at % 256) as u8;
            assert(pair_at(c1, c2) == at);
            let raw: u32 = compute_weight(total, self.count(c1, c2));
            matrix.push(tune_weight(raw, c1, c2, tuning));
            at = at + 1;
        }
        assert(matrix@ =~= minted(self.tallies(), total, tuning));
        WeightTable::from_matrix(matrix)
    }

    /// Serialize a tuned table with its provenance; a provenance that is too
    /// long is refused.
    pub fn mint_table_bytes(&self, options: &MintOptions<'_>) -> (out: Result<Vec<u8>, TableError>)
        requires
            self.wf(),
        ensures
            match out {
                Ok(bytes) => {
                    &&& encode_utf8(options.provenance@).len() <= MAX_PROVENANCE_LEN
                    &&& bytes@ == encoded(
                        minted(self.tallies(), self.pairs(), options.tuning),
                        Some(options.provenance@),
                    )
                },
                Err(err) => {
                    &&& encode_utf8(options.provenance@).len() > MAX_PROVENANCE_LEN
                    &&& err == (TableError::ProvenanceTooLong {
                        len: encode_utf8(options.provenance@).len() as usize,
                        max: MAX_PROVENANCE_LEN,
                    })
                },
            },
    {
        match self.weight_table(options.tuning).with_provenance(options.provenance) {
            Ok(table) => Ok(table.to_bytes()),
            Err(err) => Err(err),
        }
    }
}

} // verus!
