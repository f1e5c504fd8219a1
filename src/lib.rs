//! Validation kernel of a single-node ledger: content-addressed blocks with a
//! binary Merkle tree over transaction identifiers, proof-of-work, an unspent
//! output ledger and the chain that owns them.
pub mod block;
pub mod chain;
pub mod error;
pub mod hashing;
pub mod pow;
pub mod utxo;

pub use block::{Block, BlockHeader, Transaction, TxInput, TxOutput};
pub use chain::Blockchain;
pub use error::BlockchainError;
pub use pow::ProofOfWork;
pub use utxo::{UtxoEntry, UtxoSet};
