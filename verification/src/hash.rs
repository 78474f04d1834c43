//! Block hashes.

use vstd::prelude::*;

verus! {

/// A 256-bit block hash, held as the two halves of its big-endian reading.
///
/// The registry only copies hashes and compares them for equality.
#[derive(Clone, Copy, Debug, PartialEq, Eq, Structural, Hash, PartialOrd, Ord)]
pub struct BlockHash {
    /// The first sixteen bytes.
    pub high: u128,
    /// The last sixteen bytes.
    pub low: u128,
}

impl BlockHash {
    /// Builds a hash from its two halves.
    pub fn new(high: u128, low: u128) -> (hash: Self)
        ensures
            hash.high == high,
            hash.low == low,
    {
        BlockHash { high, low }
    }
}

} // verus!
