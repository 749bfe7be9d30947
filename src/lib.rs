//! Privacy-preserving value transfer: stealth addresses, Pedersen commitments with range
//! proofs, and balanced private transactions.
use vstd::prelude::*;

pub mod group;
pub mod commitments;
pub mod range_proof;
pub mod transaction;
pub mod stealth;
pub mod wallet;
pub mod wire;

pub use group::{Scalar, Point, random_scalar};
pub use commitments::{PedersenCommitment, Commitment};
pub use range_proof::{RangeProof, BitProof};
pub use stealth::{StealthMasterKey, StealthAddress, StealthTransaction, StealthScanner};
pub use transaction::{
    TransactionBuilder, PrivateTransaction, TransactionInput, TransactionOutput, UTXO,
};
pub use wallet::{
    StoredAccount, StoredTransaction, StealthOutput, TransactionRecord, ExportedKeys,
    WalletStatistics,
};

verus! {

/// The library's version.
pub const VERSION: &'static str = "0.1.0";

/// The library's authors.
pub const AUTHORS: &'static str = "stealth_core developers";

/// Errors of the core, by kind.
#[derive(Debug, Clone, PartialEq, Eq)]
pub enum CoreError {
    InvalidMnemonic(String),
    KeyDerivation(String),
    Commitment(String),
    Storage(String),
    Crypto(String),
    Serialization(String),
    InvalidParameter(String),
}

} // verus!
