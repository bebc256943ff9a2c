//! The ways in which a transaction, a block or an encoding is refused.

use vstd::prelude::*;

verus! {

/// Why an operation was refused.
#[derive(Clone, Copy, Debug, PartialEq, Eq, Structural)]
pub enum BtcError {
    /// A transaction spends an unknown or already-spent output, has a bad
    /// signature, does not conserve value, or breaks a coinbase rule.
    InvalidTransaction,
    /// A block does not extend the chain, misses its target, or is not later
    /// than its predecessor.
    InvalidBlock,
    /// A header's Merkle root does not match the block's transactions.
    InvalidMerkleRoot,
    /// Bytes that do not decode as the expected record.
    MalformedInput,
}

} // verus!
