//! Fixed configuration constants.

use vstd::prelude::*;

verus! {

/// Largest complexity score that still passes.
pub const MAX_COMPLEXITY: u64 = 10_000;

/// Oracle bond amount in drops (100,000 XRP).
pub const ORACLE_BOND: &'static str = "100000000000";

/// Oracle epoch duration in blocks (about two weeks).
pub const ORACLE_EPOCH: u64 = 201_600;

/// Oracle report window in blocks.
pub const ORACLE_WINDOW: u64 = 1_000;

/// Number of jurors.
pub const JURY_SIZE: usize = 21;

/// Jury voting period in seconds (72 hours).
pub const JURY_VOTING_PERIOD: u64 = 72 * 60 * 60;

/// Size of the active oracle set.
pub const ACTIVE_ORACLE_SET_SIZE: usize = 101;

} // verus!
