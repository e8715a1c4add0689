//! Learning settings.

use vstd::prelude::*;

use crate::table::pair_at;

verus! {

/// Constants of the counters and of minting.
pub struct LearnSettings;

impl LearnSettings {
    /// Number of byte pairs.
    pub const PAIR_COUNT: usize = 65536;

    /// Bytes of a snapshot, eight per pair.
    pub const SNAPSHOT_BYTES: usize = 524288;

    /// Discount that leaves every weight as it is.
    pub const MINT_OFF_BOUNDARY_DISCOUNT: u32 = 1;

    /// Floor that goes with no discount.
    pub const MINT_OFF_BOUNDARY_FLOOR: u32 = 1;

    /// Default discount of boundary pairs.
    pub const MINT_DEFAULT_BOUNDARY_DISCOUNT: u32 = 16;

    /// Default floor of a discounted weight.
    pub const MINT_DEFAULT_BOUNDARY_FLOOR: u32 = 1;

    /// The position of a pair's count.
    pub fn pair_index(c1: u8, c2: u8) -> (idx: usize)
        ensures
            idx == pair_at(c1, c2),
            idx < LearnSettings::PAIR_COUNT,
    {
        c1 as usize * 256 + c2 as usize
    }
}

} // verus!
