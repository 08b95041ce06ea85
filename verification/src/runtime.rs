//! Constants and fee formulas of the bridge's consensus runtime.

use vstd::prelude::*;

verus! {

/// The block size limit, in bytes.
pub const BLOCK_SIZE: u32 = 1024 * 1024;

/// The target block time, in milliseconds.
pub const TARGET_BLOCK_TIME: u64 = 6000;

/// Blocks per minute, at the target block time.
pub const MINUTES: u32 = 60_000 / 6000;

/// Blocks per hour.
pub const HOURS: u32 = MINUTES * 60;

/// Blocks per day.
pub const DAYS: u32 = HOURS * 24;

/// The base number of indivisible units of the balance type.
pub const UNIT: u64 = 1_000_000_000_000;

/// One thousandth of `UNIT`.
pub const MILLIUNIT: u64 = 1_000_000_000;

/// The deposit charged for storing `items` items and `bytes` bytes: a tenth
/// of one `UNIT` per item plus a twentieth of a `MILLIUNIT` per byte.
pub fn deposit(items: u32, bytes: u32) -> (r: u64)
    requires
        items * UNIT + bytes * (5 * MILLIUNIT / 100) <= u64::MAX,
    ensures
        r == (items * UNIT + bytes * (5 * MILLIUNIT / 100)) / 10,
{
    ((items as u64) * UNIT + (bytes as u64) * (5 * MILLIUNIT / 100)) / 10
}

/// A session validator is identified by its account key itself.
pub struct IdentityValidatorIdOf;

impl IdentityValidatorIdOf {
    /// The validator ID for an account key: the key, unchanged.
    pub fn convert(key: Vec<u8>) -> (r: Option<Vec<u8>>)
        ensures
            r == Some(key),
    {
        Some(key)
    }
}

} // verus!
