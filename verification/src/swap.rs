//! Inspection of atomic-swap transfers.
//!
//! A swap is a two-input, two-output transfer in which each party
//! funds one input and receives one output.  Before signing the second
//! half, a party opens the output meant for them with the note they
//! decrypted and checks that its commitments reproduce the note's
//! contents and mirror the counterparty's input.  The commitment
//! openings follow the engine's deterministic commitment relations.

use vstd::prelude::*;

use crate::crypto::{
    coin_commit, spec_coin_commit, spec_public_key_of, spec_token_commit, spec_value_commit,
    public_key_of, token_commit, value_commit,
};
use crate::error::Error;
use crate::types::{Signature, Transaction};

verus! {

/// The plaintext a swap output's encrypted note opens to.
#[derive(Clone, Copy, Debug, PartialEq, Eq, Structural)]
pub struct SwapNote {
    pub value: u64,
    pub token_id: u64,
    pub serial: u64,
    pub value_blind: u64,
    pub token_blind: u64,
}

/// One funded input of a swap: its blinded commitments.
#[derive(Clone, Copy, Debug, PartialEq, Eq, Structural)]
pub struct SwapInput {
    pub value_commit: u64,
    pub token_commit: u64,
}

/// One minted output of a swap: the coin and its blinded commitments.
#[derive(Clone, Copy, Debug, PartialEq, Eq, Structural)]
pub struct SwapOutput {
    pub coin: u64,
    pub value_commit: u64,
    pub token_commit: u64,
}

/// The settled form of a swap: both halves' inputs and outputs.
#[derive(Debug)]
pub struct PartialSwapData {
    pub inputs: Vec<SwapInput>,
    pub outputs: Vec<SwapOutput>,
}

#[verifier::ext_equal]
pub ghost struct SwapV {
    pub inputs: Seq<SwapInput>,
    pub outputs: Seq<SwapOutput>,
}

impl View for PartialSwapData {
    type V = SwapV;

    open spec fn view(&self) -> SwapV {
        SwapV { inputs: self.inputs@, outputs: self.outputs@ }
    }
}

/// A full swap carries exactly two inputs and two outputs.
pub open spec fn swap_shape_ok(s: SwapV) -> bool {
    s.inputs.len() == 2 && s.outputs.len() == 2
}

/// The note and secret open the output: the coin and both commitments
/// reproduce the note's contents.
pub open spec fn note_opens_output(o: SwapOutput, note: SwapNote, secret: u64) -> bool {
    &&& o.coin == spec_coin_commit(
        spec_public_key_of(secret),
        note.value,
        note.token_id,
        note.serial,
    )
    &&& o.value_commit == spec_value_commit(note.value, note.value_blind)
    &&& o.token_commit == spec_token_commit(note.token_id, note.token_blind)
}

/// A swap is consistent for the holder of `secret` receiving output
/// `idx`: the note opens that output, and its commitments mirror the
/// counterparty's input.
pub open spec fn swap_consistent(s: SwapV, idx: int, note: SwapNote, secret: u64) -> bool {
    &&& swap_shape_ok(s)
    &&& 0 <= idx < 2
    &&& note_opens_output(s.outputs[idx], note, secret)
    &&& s.outputs[idx].value_commit == s.inputs[1 - idx].value_commit
    &&& s.outputs[idx].token_commit == s.inputs[1 - idx].token_commit
}

/// Inspect a swap before signing it: succeeds exactly when the
/// decrypted note opens the chosen output and its commitments mirror
/// the counterparty's input.
pub fn inspect_swap(
    swap: &PartialSwapData,
    output_idx: usize,
    note: SwapNote,
    secret: u64,
) -> (r: Result<(), Error>)
    ensures
        r is Ok <==> swap_consistent(swap@, output_idx as int, note, secret),
        r matches Err(e) ==> e == (if !swap_shape_ok(swap@) || output_idx >= 2 {
            Error::MalformedEncoding
        } else {
            Error::CommitmentMismatch
        }),
{
    if swap.inputs.len() != 2 || swap.outputs.len() != 2 || output_idx >= 2 {
        return Err(Error::MalformedEncoding);
    }
    let o = swap.outputs[output_idx];
    let pk = public_key_of(secret);
    let coin = coin_commit(pk, note.value, note.token_id, note.serial);
    if o.coin != coin {
        return Err(Error::CommitmentMismatch);
    }
    if o.value_commit != value_commit(note.value, note.value_blind) {
        return Err(Error::CommitmentMismatch);
    }
    if o.token_commit != token_commit(note.token_id, note.token_blind) {
        return Err(Error::CommitmentMismatch);
    }
    let other = swap.inputs[1 - output_idx];
    if o.value_commit != other.value_commit || o.token_commit != other.token_commit {
        return Err(Error::CommitmentMismatch);
    }
    Ok(())
}

/// Prepend this party's signature to the transaction's first
/// signature list, as the counter-signer of a swap does after
/// inspecting it.
pub fn sign_swap(tx: &mut Transaction, sig: Signature)
    requires
        old(tx)@.signatures.len() >= 1,
    ensures
        final(tx)@.calls == old(tx)@.calls,
        final(tx)@.proofs == old(tx)@.proofs,
        final(tx)@.signatures.len() == old(tx)@.signatures.len(),
        final(tx)@.signatures[0] == seq![sig] + old(tx)@.signatures[0],
        forall|i: int|
            1 <= i < old(tx)@.signatures.len() ==> final(tx)@.signatures[i] == old(
                tx,
            )@.signatures[i],
{
    let mut first = tx.signatures.remove(0);
    first.insert(0, sig);
    tx.signatures.insert(0, first);
    proof {
        assert(tx.signatures@[0]@ =~= seq![sig] + old(tx)@.signatures[0]);
        assert forall|i: int|
            1 <= i < old(tx)@.signatures.len() implies final(tx)@.signatures[i] == old(
            tx,
        )@.signatures[i] by {
            assert(tx.signatures@[i] == old(tx).signatures@[i]);
        }
        assert(final(tx)@.calls =~~= old(tx)@.calls);
        assert(final(tx)@.proofs =~~= old(tx)@.proofs);
    }
}

} // verus!
