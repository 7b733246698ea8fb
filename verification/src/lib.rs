//! Core of a blockchain node's block-authoring and transaction-admission
//! subsystem: the proposer that drives a byzantine-fault-tolerant round
//! engine, and the transaction pool that feeds it.
//!
//! The chain database, networking, timers and cryptographic key storage are
//! external collaborators; the chain is reached through the [`api::Client`]
//! trait, and wall-clock readings are injected by the caller so that the
//! timing rules are deterministically checkable.

pub mod api;
pub mod codec;
pub mod crypto;
pub mod error;
pub mod evaluation;
pub mod offline_tracker;
pub mod pool;
pub mod proposer;
pub mod types;
