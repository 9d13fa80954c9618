//! Reconstructs a usable block-height index and transaction-value ledger from
//! the raw on-disk artifacts of a full-node blockchain client.
//!
//! The crate decodes the client's obfuscated block-container format and its
//! legacy key-value index records, resolves the discovered hash-linked block
//! graph into a dense height-ordered chain with orphan detection and unique
//! tip selection, tracks unspent outputs block by block to compute exact
//! monetary values, and extracts per-block metric columns with quantile
//! reduction for distributional metrics.

pub mod block;
pub mod chain;
pub mod codec;
pub mod columns;
pub mod hash;
pub mod hexfmt;
pub mod kv;
pub mod parse;
pub mod subsidy;
pub mod utxo;
