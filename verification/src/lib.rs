//! A verified validator engine for an anonymous, proof-backed ledger.
//!
//! The engine accepts candidate blocks and transactions, executes the
//! native contracts deterministically against a checkpoint/revert overlay
//! of the chain state, checks signatures and proofs, and enforces the
//! consensus rules of the staked-coin lifecycle.  Values that in a
//! deployment come from elliptic-curve and hash primitives are modelled
//! here as plain machine integers bound by deterministic relations, so
//! that the engine's bookkeeping — encoding, state transitions, overlay
//! atomicity, timing rules — is proved in full.

pub mod error;
pub mod serial;
pub mod crypto;
pub mod bridgetree;
pub mod tree_serial;
pub mod types;
pub mod state;
pub mod runtime;
pub mod verification;
pub mod net;
pub mod deploy;
pub mod swap;
