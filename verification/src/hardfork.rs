//! Mainnet hard fork settings.

use vstd::prelude::*;

verus! {

/// The chain specification name.
pub const CHAIN_SPEC_NAME: &'static str = "ckb";

/// The first epoch of CKB v2021 on mainnet (not scheduled yet).
pub const CKB2021_START_EPOCH: u64 = u64::MAX;

/// The first block that saves the MMR root hash into its header (not
/// scheduled yet).
pub const MMR_ACTIVATED_BLOCK: u64 = u64::MAX;

} // verus!
