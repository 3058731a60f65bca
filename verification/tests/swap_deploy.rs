//! Swap inspection and deployment-parameter tests.

use darkfi_core::crypto::{coin_commit, public_key_of, token_commit, value_commit};
use darkfi_core::deploy::{
    DeployParamsV1, DeployUpdateV1, LockParamsV1, LockUpdateV1, derive_contract_id,
};
use darkfi_core::error::Error;
use darkfi_core::swap::{
    PartialSwapData, SwapInput, SwapNote, SwapOutput, inspect_swap, sign_swap,
};
use darkfi_core::types::{ContractCall, Proof, Signature, Transaction};

fn swap_for(note: SwapNote, secret: u64, counter_note: SwapNote, counter_secret: u64)
    -> PartialSwapData {
    let my_output = SwapOutput {
        coin: coin_commit(public_key_of(secret), note.value, note.token_id, note.serial),
        value_commit: value_commit(note.value, note.value_blind),
        token_commit: token_commit(note.token_id, note.token_blind),
    };
    let their_output = SwapOutput {
        coin: coin_commit(
            public_key_of(counter_secret),
            counter_note.value,
            counter_note.token_id,
            counter_note.serial,
        ),
        value_commit: value_commit(counter_note.value, counter_note.value_blind),
        token_commit: token_commit(counter_note.token_id, counter_note.token_blind),
    };
    // Party zero funds what party one receives and vice versa.
    PartialSwapData {
        inputs: vec![
            SwapInput {
                value_commit: their_output.value_commit,
                token_commit: their_output.token_commit,
            },
            SwapInput {
                value_commit: my_output.value_commit,
                token_commit: my_output.token_commit,
            },
        ],
        outputs: vec![my_output, their_output],
    }
}

fn notes() -> (SwapNote, SwapNote) {
    (
        SwapNote { value: 100, token_id: 1, serial: 5, value_blind: 11, token_blind: 12 },
        SwapNote { value: 40, token_id: 2, serial: 6, value_blind: 13, token_blind: 14 },
    )
}

#[test]
fn inspect_swap_accepts_consistent_halves() {
    let (mine, theirs) = notes();
    let swap = swap_for(mine, 42, theirs, 7);
    assert_eq!(inspect_swap(&swap, 0, mine, 42), Ok(()));
    assert_eq!(inspect_swap(&swap, 1, theirs, 7), Ok(()));
}

#[test]
fn inspect_swap_rejects_wrong_note_or_shape() {
    let (mine, theirs) = notes();
    let swap = swap_for(mine, 42, theirs, 7);
    // A note that does not open the output.
    let mut wrong = mine;
    wrong.value = 101;
    assert_eq!(inspect_swap(&swap, 0, wrong, 42), Err(Error::CommitmentMismatch));
    // The right note under the wrong secret.
    assert_eq!(inspect_swap(&swap, 0, mine, 43), Err(Error::CommitmentMismatch));
    // A mismatched counterparty input.
    let mut lopsided = swap_for(mine, 42, theirs, 7);
    lopsided.inputs[1].value_commit ^= 1;
    assert_eq!(inspect_swap(&lopsided, 0, mine, 42), Err(Error::CommitmentMismatch));
    // A half missing an output is not a full swap.
    let mut short = swap_for(mine, 42, theirs, 7);
    short.outputs.pop();
    assert_eq!(inspect_swap(&short, 0, mine, 42), Err(Error::MalformedEncoding));
}

#[test]
fn sign_swap_prepends_signature() {
    let mut tx = Transaction {
        calls: vec![ContractCall { contract_id: 101, data: vec![1] }],
        proofs: vec![vec![Proof { payload: 9 }]],
        signatures: vec![vec![Signature { tag: 2 }]],
    };
    sign_swap(&mut tx, Signature { tag: 1 });
    assert_eq!(tx.signatures[0], vec![Signature { tag: 1 }, Signature { tag: 2 }]);
}

#[test]
fn deploy_types_round_trip() {
    let params = DeployParamsV1 { wasm_bincode: vec![1, 2, 3, 4], public_key: 55 };
    let mut out = Vec::new();
    params.encode(&mut out);
    let (p2, end) = DeployParamsV1::decode(&out, 0).unwrap();
    assert_eq!(end, out.len());
    assert_eq!(p2.wasm_bincode, vec![1, 2, 3, 4]);
    assert_eq!(p2.public_key, 55);

    let update = DeployUpdateV1 { contract_id: derive_contract_id(55) };
    let mut out2 = Vec::new();
    update.encode(&mut out2);
    let (u2, _) = DeployUpdateV1::decode(&out2, 0).unwrap();
    assert_eq!(u2, update);

    let lock = LockParamsV1 { public_key: 55 };
    let mut out3 = Vec::new();
    lock.encode(&mut out3);
    let (l2, _) = LockParamsV1::decode(&out3, 0).unwrap();
    assert_eq!(l2, lock);

    let lock_update = LockUpdateV1 { contract_id: derive_contract_id(55) };
    let mut out4 = Vec::new();
    lock_update.encode(&mut out4);
    let (lu2, _) = LockUpdateV1::decode(&out4, 0).unwrap();
    assert_eq!(lu2, lock_update);

    // Truncated parameters do not decode.
    out.truncate(3);
    assert_eq!(DeployParamsV1::decode(&out, 0).err(), Some(Error::MalformedEncoding));
}
