//! Node-side core of an asset-transfer service: a per-account ledger with
//! strictly consecutive sender sequences, a bounded log of recent
//! transactions, a scheduler that linearises out-of-order deliveries, and the
//! byte layout of signed payloads.

pub mod keys;
pub mod account;
pub mod accounts;
pub mod transaction;
pub mod recent_transactions;
pub mod payload;
pub mod rpc;

pub use keys::PublicKey;
pub use transaction::{FullTransaction, ThinTransaction, TransactionState};
