//! Verified core logic of several CKB components: the live-cell set, the
//! mocked-script registry, the epoch statistics table, the memory tracker's
//! decisions and the miner's nonce search.

pub mod text;
pub mod vec_map;
pub mod transaction;
pub mod bloom;
pub mod cell_set;
pub mod mock;
pub mod difficulty;
pub mod list_epochs;
pub mod memory_tracker;
pub mod miner;
pub mod hardfork;
