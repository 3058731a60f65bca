//! Error taxonomy of the validator engine.
//!
//! Every rejection the engine can produce is one of these variants, so a
//! submitter can tell a structurally broken transaction from one that is
//! merely invalid at the current slot.

use vstd::prelude::*;

verus! {

/// A reason for rejecting a transaction, a block, or an encoded value.
#[derive(Clone, Copy, Debug, PartialEq, Eq, Structural)]
pub enum Error {
    /// Bytes that do not decode to the expected shape, or that reference
    /// an unknown contract.
    MalformedEncoding,
    /// The transaction carries fewer or more signature lists than calls.
    MissingSignatures,
    /// A call's proof list does not line up with the proofs its metadata
    /// declares.
    ArityMismatch,
    /// A signature does not check out against its declared public key.
    InvalidSignature,
    /// A proof does not check out against its verifying key and public
    /// inputs.
    InvalidZkProof,
    /// A value or coin commitment does not open to the claimed contents,
    /// or an input coin is not part of the recorded set.
    CommitmentMismatch,
    /// The block is already part of the chain view.
    BlockAlreadyExists,
    /// A non-genesis block arrived without its predecessor.
    BlockPreviousMissing,
    /// The block's slot is not the slot the engine is verifying.
    VerifyingSlotMismatch,
    /// A nullifier was seen before: the coin behind it is already spent.
    DoubleSpend,
    /// The commitment tree holds its maximum number of leaves.
    TreeFull,
    /// A genesis-stake call outside slot zero.
    NotGenesisSlot,
    /// A lifecycle transition attempted before its grace period elapsed.
    BeforeGracePeriod,
    /// The staked coin this call would mint is already recorded.
    DuplicateStake,
    /// A frontier whose ommers do not match its position.
    FrontierError,
    /// Decoded commitment-tree parts that do not form a consistent tree.
    BridgeTreeError,
}

} // verus!
