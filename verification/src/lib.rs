//! An embeddable, local-first append-only ledger engine.
//!
//! The engine maintains an authenticated chain of blocks over signed
//! transactions, keeps all state in a key-value store with namespaced
//! trees and a single atomic write boundary per block, and enforces
//! state-transition rules through a ledger validator driven by a
//! proof-of-authority consensus strategy.
//!
//! - [`types`]: blocks, transactions, accounts and the chain state
//! - [`crypto`]: SHA-256 and Ed25519, behind contracts over named results
//! - [`codec`]: the canonical binary encoding and its verified decoders
//! - [`keys`]: the key schemas of the store's trees
//! - [`storage`]: the namespaced trees and the atomic write batch
//! - [`contracts`]: contract identifiers and code storage
//! - [`ledger`]: block validation, the state transition, atomic commit
//! - [`consensus`]: proof-of-authority production and validation
//! - [`runtime`]: the orchestrator wiring the pieces together
//! - [`sync`]: length-prefixed message framing for peers

pub mod codec;
pub mod consensus;
pub mod contracts;
pub mod crypto;
pub mod keys;
pub mod ledger;
pub mod runtime;
pub mod storage;
pub mod sync;
pub mod types;

pub use crypto::CryptoError;
