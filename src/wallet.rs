//! Wallet records exchanged with the persistent store, and the mnemonic check.
use vstd::prelude::*;
use vstd::string::StringSliceAdditionalSpecFns;
use sha2::Digest;

verus! {

/// An account row of the store.
#[derive(Debug, Clone, PartialEq, Eq)]
pub struct StoredAccount {
    pub id: i64,
    pub index: u32,
    pub name: String,
    pub ethereum_address: String,
    pub solana_address: String,
    pub bitcoin_address: String,
    pub polygon_address: String,
    pub zcash_address: String,
}

/// A transaction row of the store.
#[derive(Debug, Clone, PartialEq, Eq)]
pub struct StoredTransaction {
    pub id: i64,
    pub tx_hash: String,
    pub account_id: i64,
    pub chain: String,
    pub tx_type: String,
    pub amount: String,
    pub from_address: Option<String>,
    pub to_address: Option<String>,
    pub status: String,
    pub timestamp: i64,
    pub block_number: Option<i64>,
    pub gas_used: Option<String>,
}

/// A scanned stealth output row of the store, with its `spent` flag.
#[derive(Debug, Clone, PartialEq, Eq)]
pub struct StealthOutput {
    pub id: i64,
    pub tx_hash: String,
    pub account_id: i64,
    pub ephemeral_public: Vec<u8>,
    pub one_time_public: Vec<u8>,
    pub one_time_private: Vec<u8>,
    pub amount: String,
    pub spent: bool,
}

/// A transaction as the wallet records it.
#[derive(Debug, Clone, PartialEq, Eq)]
pub struct TransactionRecord {
    pub tx_hash: String,
    pub chain: String,
    pub tx_type: String,
    pub amount: String,
    pub from_address: Option<String>,
    pub to_address: Option<String>,
    pub status: String,
    pub timestamp: i64,
    pub block_number: Option<i64>,
    pub gas_used: Option<String>,
}

/// Exported private keys of an account.
#[derive(Debug, Clone, PartialEq, Eq)]
pub struct ExportedKeys {
    pub ethereum: String,
    pub solana: String,
    pub bitcoin: String,
}

/// Summary counts of a wallet.
#[derive(Debug, Clone, PartialEq, Eq)]
pub struct WalletStatistics {
    pub total_accounts: u32,
    pub total_transactions: u32,
    pub wallet_version: String,
    pub created_at: String,
}

impl StoredTransaction {
    /// The row for `record` under the account row `account_id`; the store assigns `id`.
    pub fn from_record(record: TransactionRecord, account_id: i64) -> (r: StoredTransaction)
        ensures
            r.id == 0,
            r.account_id == account_id,
            r.tx_hash == record.tx_hash,
            r.chain == record.chain,
            r.tx_type == record.tx_type,
            r.amount == record.amount,
            r.from_address == record.from_address,
            r.to_address == record.to_address,
            r.status == record.status,
            r.timestamp == record.timestamp,
            r.block_number == record.block_number,
            r.gas_used == record.gas_used,
    {
        StoredTransaction {
            id: 0,
            tx_hash: record.tx_hash,
            account_id,
            chain: record.chain,
            tx_type: record.tx_type,
            amount: record.amount,
            from_address: record.from_address,
            to_address: record.to_address,
            status: record.status,
            timestamp: record.timestamp,
            block_number: record.block_number,
            gas_used: record.gas_used,
        }
    }
}

/// The SHA-256 digest of `data`.
pub uninterp spec fn sha256_of(data: Seq<u8>) -> Seq<u8>;

/// Relies on `Sha256::digest`: the 32-byte SHA-256 digest of `data`.
#[verifier::external_body]
fn sha256(data: &[u8]) -> (r: Vec<u8>)
    ensures
        r@ == sha256_of(data@),
{
    sha2::Sha256::digest(data).to_vec()
}

/// The lowercase hexadecimal digit of `d < 16`.
pub open spec fn hex_digit(d: int) -> char {
    seq!['0', '1', '2', '3', '4', '5', '6', '7', '8', '9', 'a', 'b', 'c', 'd', 'e', 'f'][d]
}

/// Two lowercase hexadecimal digits per byte, high digit first.
pub open spec fn hex_of(b: Seq<u8>) -> Seq<char>
    decreases b.len(),
{
    if b.len() == 0 {
        Seq::empty()
    } else {
        seq![hex_digit(b[0] as int / 16), hex_digit(b[0] as int % 16)] + hex_of(b.subrange(1, b.len() as int))
    }
}

/// Relies on `hex::encode`: two lowercase hexadecimal digits for each byte, in order.
#[verifier::external_body]
fn hex_encode(b: &[u8]) -> (r: String)
    ensures
        r@ == hex_of(b@),
{
    hex::encode(b)
}

/// The check value kept for a mnemonic: the hex form of the SHA-256 of its UTF-8 bytes.
/// It cannot be turned back into the mnemonic.
pub fn hash_mnemonic(mnemonic: &str) -> (r: String)
    ensures
        r@ == hex_of(sha256_of(mnemonic.spec_bytes())),
{
    let digest = sha256(mnemonic.as_bytes());
    hex_encode(digest.as_slice())
}

/// Whether `mnemonic` is the one whose check value `stored_hash` was kept.
pub fn mnemonic_matches(stored_hash: &String, mnemonic: &str) -> (r: bool)
    ensures
        r == (stored_hash@ == hex_of(sha256_of(mnemonic.spec_bytes()))),
{
    let provided = hash_mnemonic(mnemonic);
    *stored_hash == provided
}

} // verus!
