use vstd::prelude::*;

verus! {

/// Every way in which a candidate block or a mining run can be refused.
#[derive(Debug, Clone, Copy, PartialEq, Eq, Structural)]
pub enum BlockchainError {
    /// The chain holds no block to link to.
    EmptyChain,
    /// The block's previous hash is not the hash of the chain tip.
    InvalidBlockLink,
    /// The block's hash does not meet the current difficulty target.
    InvalidPoW,
    /// The block's stored hash differs from its recomputed hash.
    InvalidBlock,
    /// An input is unknown or already spent, or an output would overwrite an unspent one.
    InvalidTransaction,
    /// Every nonce was tried without meeting the target.
    NonceExhausted,
}

impl BlockchainError {
    /// A short human-readable description of the error.
    pub fn message(&self) -> (r: &'static str) {
        match self {
            BlockchainError::EmptyChain => "Empty blockchain",
            BlockchainError::InvalidBlockLink => "Invalid block linkage",
            BlockchainError::InvalidPoW => "Invalid proof-of-work",
            BlockchainError::InvalidBlock => "Invalid block",
            BlockchainError::InvalidTransaction => "Invalid transaction",
            BlockchainError::NonceExhausted => "Nonce space exhausted",
        }
    }
}

} // verus!
