//! Node-side settlement reconciliation for one hosted contract: speculative
//! execution of contract operations as blocks arrive, rollback and replay when
//! the ledger reports a failure, and batching of call inputs for proving.

pub mod types;
pub mod contract;
pub mod prover;
pub mod text;
pub mod faucet;
pub mod config;
pub mod indexer;
pub mod init;
