//! A minimal UTXO-based proof-of-work chain: blocks, transactions, a
//! mempool with tentative marks, and difficulty retargeting.

pub mod u256;
pub mod hashing;
pub mod crypto;
pub mod codec;
pub mod transaction;
pub mod utxo;
pub mod util;
pub mod error;
pub mod clock;
pub mod block;
pub mod blockchain;
pub mod series;

use vstd::prelude::*;

verus! {

/// Coins minted by a block before any halving.
pub const INITIAL_REWARD: u64 = 50;
/// Blocks between two halvings of the reward.
pub const HALVING_INTERVAL: u64 = 210;
/// The intended time between blocks, in seconds.
pub const IDEAL_BLOCK_TIME: u64 = 10;
/// Blocks between two difficulty adjustments.
pub const DIFFICULTY_UPDATE_INTERVAL: u64 = 50;
/// How long a transaction may wait in the mempool, in seconds.
pub const MAX_MEMPOOL_TRANSACTION_AGE: u64 = 600;

} // verus!
