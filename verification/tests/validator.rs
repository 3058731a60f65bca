//! End-to-end validator scenarios: the staked-coin lifecycle, block
//! verification, and every rejection reason.

use darkfi_core::crypto::{coin_commit, mix, proof_tag, public_key_of, sign, vk_of};
use darkfi_core::error::Error;
use darkfi_core::runtime::{
    CallOutput, ConsensusParams, GenesisStakeParams, SpendInput, TransferParams,
    encode_consensus_params, encode_genesis_params, encode_transfer_params,
    CONSENSUS_CONTRACT_ID, CONSENSUS_GENESIS_STAKE, CONSENSUS_PROPOSAL, CONSENSUS_UNSTAKE,
    CONSENSUS_UNSTAKE_REQUEST, EPOCH_LENGTH, GRACE_PERIOD, MONEY_CONTRACT_ID, MONEY_OTC_SWAP,
    MONEY_TRANSFER, NS_CONSENSUS_BURN, NS_CONSENSUS_MINT, NS_MONEY_BURN, NS_MONEY_MINT, REWARD,
    calculate_grace_period,
};
use darkfi_core::state::{Blockchain, CoinKind, Overlay, find_coin};
use darkfi_core::types::{
    Block, ContractCall, Header, Proof, Signature, TimeKeeper, Transaction, compute_tx_root,
};
use darkfi_core::verification::{
    VkCache, verify_block, verify_proposal_transaction, verify_transaction, verify_transactions,
};

const ALICE_SK: u64 = 42;
const TOKEN: u64 = 1;

fn sign_tx(mut tx: Transaction, secrets: &[u64]) -> Transaction {
    let msg = tx.sig_message();
    let sigs: Vec<Vec<Signature>> = secrets
        .iter()
        .map(|sk| vec![Signature { tag: sign(*sk, msg) }])
        .collect();
    tx.signatures = sigs;
    tx
}

/// A genesis-stake transaction minting a staked coin of `value`.  Its
/// one-shot nullifier lives in its own domain so later spends of the
/// minted coins cannot collide with it.
fn genesis_stake_tx(sk: u64, value: u64, serial: u64) -> Transaction {
    let pk = public_key_of(sk);
    let coin = coin_commit(pk, value, TOKEN, serial);
    let nullifier = mix(mix(sk, 1_000_000), serial);
    let params = GenesisStakeParams {
        nullifier,
        sig_public: pk,
        output: CallOutput { coin, value, pubkey: pk },
    };
    let mut data = vec![CONSENSUS_GENESIS_STAKE];
    encode_genesis_params(&params, &mut data);
    let call = ContractCall { contract_id: CONSENSUS_CONTRACT_ID, data };
    let vk = vk_of(CONSENSUS_CONTRACT_ID, NS_CONSENSUS_MINT);
    let tag = proof_tag(vk, &vec![nullifier, coin, value, pk]);
    let tx = Transaction {
        calls: vec![call],
        proofs: vec![vec![Proof { payload: tag }]],
        signatures: vec![],
    };
    sign_tx(tx, &[sk])
}

/// A consensus transition (proposal, unstake request, or unstake).
fn transition_tx(
    selector: u8,
    sk: u64,
    in_coin: u64,
    in_serial: u64,
    out_value: u64,
    out_serial: u64,
) -> Transaction {
    let pk = public_key_of(sk);
    let nullifier = mix(sk, in_serial);
    let out_coin = coin_commit(pk, out_value, TOKEN, out_serial);
    let params = ConsensusParams {
        input: SpendInput { coin: in_coin, nullifier, sig_public: pk },
        output: CallOutput { coin: out_coin, value: out_value, pubkey: pk },
    };
    let mut data = vec![selector];
    encode_consensus_params(&params, &mut data);
    let call = ContractCall { contract_id: CONSENSUS_CONTRACT_ID, data };
    let burn_vk = vk_of(CONSENSUS_CONTRACT_ID, NS_CONSENSUS_BURN);
    let mint_vk = vk_of(CONSENSUS_CONTRACT_ID, NS_CONSENSUS_MINT);
    let burn = proof_tag(burn_vk, &vec![nullifier, in_coin, pk]);
    let mint = proof_tag(mint_vk, &vec![out_coin, out_value, pk]);
    let tx = Transaction {
        calls: vec![call],
        proofs: vec![vec![Proof { payload: burn }, Proof { payload: mint }]],
        signatures: vec![],
    };
    sign_tx(tx, &[sk])
}

/// A one-input transfer splitting `in_value` into the given outputs.
fn transfer_tx(
    selector: u8,
    sk: u64,
    in_coin: u64,
    in_serial: u64,
    outputs: &[(u64, u64, u64)],
) -> Transaction {
    let pk = public_key_of(sk);
    let nullifier = mix(sk, in_serial);
    let params = TransferParams {
        inputs: vec![SpendInput { coin: in_coin, nullifier, sig_public: pk }],
        outputs: outputs
            .iter()
            .map(|(value, pubkey, serial)| CallOutput {
                coin: coin_commit(*pubkey, *value, TOKEN, *serial),
                value: *value,
                pubkey: *pubkey,
            })
            .collect(),
    };
    let mut data = vec![selector];
    encode_transfer_params(&params, &mut data);
    let call = ContractCall { contract_id: MONEY_CONTRACT_ID, data };
    let burn_vk = vk_of(MONEY_CONTRACT_ID, NS_MONEY_BURN);
    let mint_vk = vk_of(MONEY_CONTRACT_ID, NS_MONEY_MINT);
    let mut proofs = vec![Proof { payload: proof_tag(burn_vk, &vec![nullifier, in_coin, pk]) }];
    for o in params.outputs.iter() {
        proofs.push(Proof { payload: proof_tag(mint_vk, &vec![o.coin, o.value, o.pubkey]) });
    }
    let tx = Transaction { calls: vec![call], proofs: vec![proofs], signatures: vec![] };
    sign_tx(tx, &[sk])
}

fn fresh_overlay() -> (Blockchain, Overlay) {
    let chain = Blockchain::new();
    let overlay = Overlay::new(&chain);
    (chain, overlay)
}

fn tk(slot: u64) -> TimeKeeper {
    TimeKeeper { verifying_slot: slot }
}

#[test]
fn genesis_stake_mints_staked_coin() {
    let (_chain, mut overlay) = fresh_overlay();
    let mut vks = VkCache::new();
    let tx = genesis_stake_tx(ALICE_SK, 1000, 1);
    assert_eq!(verify_transaction(&mut overlay, &tk(0), &tx, &mut vks), Ok(()));
    let pk = public_key_of(ALICE_SK);
    let coin = coin_commit(pk, 1000, TOKEN, 1);
    let rec = find_coin(&overlay.state, coin).expect("staked coin recorded");
    assert_eq!(rec.value, 1000);
    assert_eq!(rec.kind, CoinKind::Staked);
    assert_eq!(rec.since_slot, 0);
}

#[test]
fn duplicate_genesis_stake_is_double_spend() {
    let (_chain, mut overlay) = fresh_overlay();
    let mut vks = VkCache::new();
    let tx = genesis_stake_tx(ALICE_SK, 1000, 1);
    assert_eq!(verify_transaction(&mut overlay, &tk(0), &tx, &mut vks), Ok(()));
    assert_eq!(
        verify_transaction(&mut overlay, &tk(0), &tx, &mut vks),
        Err(Error::DoubleSpend)
    );
    // Through the batch path: first committed, second erroneous.
    let (_chain2, mut overlay2) = fresh_overlay();
    let tx_a = genesis_stake_tx(ALICE_SK, 1000, 1);
    let tx_b = genesis_stake_tx(ALICE_SK, 1000, 1);
    let erroneous = verify_transactions(&mut overlay2, &tk(0), &vec![tx_a, tx_b]).unwrap();
    assert_eq!(erroneous.len(), 1);
}

#[test]
fn genesis_stake_outside_genesis_slot_is_rejected() {
    let (_chain, mut overlay) = fresh_overlay();
    let mut vks = VkCache::new();
    let tx = genesis_stake_tx(ALICE_SK, 1000, 1);
    let n_before = overlay.state.nullifiers.len();
    assert_eq!(
        verify_transaction(&mut overlay, &tk(1), &tx, &mut vks),
        Err(Error::NotGenesisSlot)
    );
    assert_eq!(overlay.state.nullifiers.len(), n_before);
    assert_eq!(overlay.state.coins.len(), 0);
}

#[test]
fn duplicate_stake_coin_is_rejected() {
    let (_chain, mut overlay) = fresh_overlay();
    let mut vks = VkCache::new();
    let tx = genesis_stake_tx(ALICE_SK, 1000, 1);
    assert_eq!(verify_transaction(&mut overlay, &tk(0), &tx, &mut vks), Ok(()));
    // Same coin, different nullifier: refused as an already-staked coin.
    let pk = public_key_of(ALICE_SK);
    let coin = coin_commit(pk, 1000, TOKEN, 1);
    let nullifier = mix(ALICE_SK, 99);
    let params = GenesisStakeParams {
        nullifier,
        sig_public: pk,
        output: CallOutput { coin, value: 1000, pubkey: pk },
    };
    let mut data = vec![CONSENSUS_GENESIS_STAKE];
    encode_genesis_params(&params, &mut data);
    let vk = vk_of(CONSENSUS_CONTRACT_ID, NS_CONSENSUS_MINT);
    let tag = proof_tag(vk, &vec![nullifier, coin, 1000, pk]);
    let tx2 = sign_tx(
        Transaction {
            calls: vec![ContractCall { contract_id: CONSENSUS_CONTRACT_ID, data }],
            proofs: vec![vec![Proof { payload: tag }]],
            signatures: vec![],
        },
        &[ALICE_SK],
    );
    assert_eq!(
        verify_transaction(&mut overlay, &tk(0), &tx2, &mut vks),
        Err(Error::DuplicateStake)
    );
}

#[test]
fn proposal_adds_reward() {
    let (_chain, mut overlay) = fresh_overlay();
    let mut vks = VkCache::new();
    let stake = genesis_stake_tx(ALICE_SK, 1000, 1);
    assert_eq!(verify_transaction(&mut overlay, &tk(0), &stake, &mut vks), Ok(()));
    let pk = public_key_of(ALICE_SK);
    let staked_coin = coin_commit(pk, 1000, TOKEN, 1);
    let proposal = transition_tx(
        CONSENSUS_PROPOSAL,
        ALICE_SK,
        staked_coin,
        1,
        1000 + REWARD,
        2,
    );
    assert_eq!(verify_transaction(&mut overlay, &tk(1), &proposal, &mut vks), Ok(()));
    let new_coin = coin_commit(pk, 1000 + REWARD, TOKEN, 2);
    let rec = find_coin(&overlay.state, new_coin).expect("rewarded coin recorded");
    assert_eq!(rec.value, 1000 + REWARD);
    assert_eq!(rec.kind, CoinKind::Staked);
}

#[test]
fn unstake_ordering_enforces_grace_periods() {
    let (_chain, mut overlay) = fresh_overlay();
    let mut vks = VkCache::new();
    let stake = genesis_stake_tx(ALICE_SK, 1000, 1);
    assert_eq!(verify_transaction(&mut overlay, &tk(0), &stake, &mut vks), Ok(()));
    let pk = public_key_of(ALICE_SK);
    let staked_coin = coin_commit(pk, 1000, TOKEN, 1);
    let grace = calculate_grace_period() * EPOCH_LENGTH;
    assert_eq!(grace, GRACE_PERIOD * EPOCH_LENGTH);

    // Requesting before the grace period elapses is refused.
    let early = transition_tx(CONSENSUS_UNSTAKE_REQUEST, ALICE_SK, staked_coin, 1, 1000, 2);
    assert_eq!(
        verify_transaction(&mut overlay, &tk(grace - 1), &early, &mut vks),
        Err(Error::BeforeGracePeriod)
    );

    // At exactly one grace period it is accepted.
    let request = transition_tx(CONSENSUS_UNSTAKE_REQUEST, ALICE_SK, staked_coin, 1, 1000, 2);
    assert_eq!(verify_transaction(&mut overlay, &tk(grace), &request, &mut vks), Ok(()));
    let requested_coin = coin_commit(pk, 1000, TOKEN, 2);
    let rec = find_coin(&overlay.state, requested_coin).unwrap();
    assert_eq!(rec.kind, CoinKind::UnstakeRequested);
    assert_eq!(rec.value, 1000);

    // Unstaking needs a further grace period plus one epoch.
    let early2 = transition_tx(CONSENSUS_UNSTAKE, ALICE_SK, requested_coin, 2, 1000, 3);
    assert_eq!(
        verify_transaction(&mut overlay, &tk(grace + grace + EPOCH_LENGTH - 1), &early2, &mut vks),
        Err(Error::BeforeGracePeriod)
    );
    let unstake = transition_tx(CONSENSUS_UNSTAKE, ALICE_SK, requested_coin, 2, 1000, 3);
    assert_eq!(
        verify_transaction(&mut overlay, &tk(grace + grace + EPOCH_LENGTH), &unstake, &mut vks),
        Ok(())
    );
    let money_coin = coin_commit(pk, 1000, TOKEN, 3);
    let rec2 = find_coin(&overlay.state, money_coin).unwrap();
    assert_eq!(rec2.kind, CoinKind::Money);
    assert_eq!(rec2.value, 1000);
}

/// Walk one coin through the whole lifecycle so it lands in the
/// spendable set.
fn overlay_with_money_coin() -> (Blockchain, Overlay, u64, u64) {
    let (chain, mut overlay) = fresh_overlay();
    let mut vks = VkCache::new();
    let pk = public_key_of(ALICE_SK);
    let grace = GRACE_PERIOD * EPOCH_LENGTH;
    let stake = genesis_stake_tx(ALICE_SK, 1000, 1);
    assert_eq!(verify_transaction(&mut overlay, &tk(0), &stake, &mut vks), Ok(()));
    let staked = coin_commit(pk, 1000, TOKEN, 1);
    let request = transition_tx(CONSENSUS_UNSTAKE_REQUEST, ALICE_SK, staked, 1, 1000, 2);
    assert_eq!(verify_transaction(&mut overlay, &tk(grace), &request, &mut vks), Ok(()));
    let requested = coin_commit(pk, 1000, TOKEN, 2);
    let unstake = transition_tx(CONSENSUS_UNSTAKE, ALICE_SK, requested, 2, 1000, 3);
    let slot = grace + grace + EPOCH_LENGTH;
    assert_eq!(verify_transaction(&mut overlay, &tk(slot), &unstake, &mut vks), Ok(()));
    let money = coin_commit(pk, 1000, TOKEN, 3);
    (chain, overlay, money, slot)
}

#[test]
fn double_spend_across_two_txs_same_batch() {
    let (_chain, mut overlay, money_coin, slot) = overlay_with_money_coin();
    let pk = public_key_of(ALICE_SK);
    let bob_pk = public_key_of(7);
    let tx1 = transfer_tx(MONEY_TRANSFER, ALICE_SK, money_coin, 3, &[(600, pk, 10), (400, bob_pk, 11)]);
    let tx2 = transfer_tx(MONEY_TRANSFER, ALICE_SK, money_coin, 3, &[(1000, bob_pk, 12)]);
    let erroneous =
        verify_transactions(&mut overlay, &tk(slot), &vec![tx1, tx2]).unwrap();
    // Exactly one of the two spends lands; the other is erroneous.
    assert_eq!(erroneous.len(), 1);
    assert!(find_coin(&overlay.state, coin_commit(pk, 600, TOKEN, 10)).is_some());
    assert!(find_coin(&overlay.state, coin_commit(bob_pk, 1000, TOKEN, 12)).is_none());
    // Spending the same coin again directly reports the double spend.
    let mut vks = VkCache::new();
    let tx3 = transfer_tx(MONEY_TRANSFER, ALICE_SK, money_coin, 3, &[(1000, bob_pk, 13)]);
    assert_eq!(
        verify_transaction(&mut overlay, &tk(slot), &tx3, &mut vks),
        Err(Error::DoubleSpend)
    );
}

#[test]
fn swap_settles_with_transfer_semantics() {
    let (_chain, mut overlay, money_coin, slot) = overlay_with_money_coin();
    let pk = public_key_of(ALICE_SK);
    let tx = transfer_tx(MONEY_OTC_SWAP, ALICE_SK, money_coin, 3, &[(500, pk, 20), (500, pk, 21)]);
    let mut vks = VkCache::new();
    assert_eq!(verify_transaction(&mut overlay, &tk(slot), &tx, &mut vks), Ok(()));
    assert!(find_coin(&overlay.state, coin_commit(pk, 500, TOKEN, 20)).is_some());
    assert!(find_coin(&overlay.state, coin_commit(pk, 500, TOKEN, 21)).is_some());
}

#[test]
fn transfer_value_mismatch_is_commitment_mismatch() {
    let (_chain, mut overlay, money_coin, slot) = overlay_with_money_coin();
    let pk = public_key_of(ALICE_SK);
    let tx = transfer_tx(MONEY_TRANSFER, ALICE_SK, money_coin, 3, &[(999, pk, 30)]);
    let mut vks = VkCache::new();
    assert_eq!(
        verify_transaction(&mut overlay, &tk(slot), &tx, &mut vks),
        Err(Error::CommitmentMismatch)
    );
}

#[test]
fn structural_and_cryptographic_rejections() {
    // Each case starts from a fresh overlay: a rejection after the
    // call loop leaves the call's writes for the caller's checkpoint.

    // Missing signature list.
    let (_c1, mut overlay) = fresh_overlay();
    let mut vks = VkCache::new();
    let mut tx = genesis_stake_tx(ALICE_SK, 1000, 1);
    tx.signatures = vec![];
    assert_eq!(
        verify_transaction(&mut overlay, &tk(0), &tx, &mut vks),
        Err(Error::MissingSignatures)
    );

    // Tampered signature.
    let (_c2, mut overlay) = fresh_overlay();
    let mut vks = VkCache::new();
    let mut tx = genesis_stake_tx(ALICE_SK, 1000, 1);
    tx.signatures[0][0].tag ^= 1;
    assert_eq!(
        verify_transaction(&mut overlay, &tk(0), &tx, &mut vks),
        Err(Error::InvalidSignature)
    );

    // Dropped proof: arity mismatch against declared demands.
    let (_c3, mut overlay) = fresh_overlay();
    let mut vks = VkCache::new();
    let mut tx = genesis_stake_tx(ALICE_SK, 1000, 1);
    tx.proofs[0].clear();
    assert_eq!(
        verify_transaction(&mut overlay, &tk(0), &tx, &mut vks),
        Err(Error::ArityMismatch)
    );

    // Tampered proof.
    let (_c4, mut overlay) = fresh_overlay();
    let mut vks = VkCache::new();
    let mut tx = genesis_stake_tx(ALICE_SK, 1000, 1);
    tx.proofs[0][0].payload ^= 1;
    assert_eq!(
        verify_transaction(&mut overlay, &tk(0), &tx, &mut vks),
        Err(Error::InvalidZkProof)
    );

    // Garbage payload bytes.
    let (_c5, mut overlay) = fresh_overlay();
    let mut vks = VkCache::new();
    let garbage = sign_tx(
        Transaction {
            calls: vec![ContractCall { contract_id: CONSENSUS_CONTRACT_ID, data: vec![0x77] }],
            proofs: vec![vec![]],
            signatures: vec![],
        },
        &[ALICE_SK],
    );
    assert_eq!(
        verify_transaction(&mut overlay, &tk(0), &garbage, &mut vks),
        Err(Error::MalformedEncoding)
    );
}

fn genesis_block(txs: Vec<Transaction>) -> Block {
    let tx_root = compute_tx_root(&txs);
    Block {
        header: Header { slot: 0, previous: 0, tx_root, producer: 0 },
        proposal: Transaction::default(),
        txs,
    }
}

#[test]
fn block_lifecycle_and_idempotent_verification() {
    let mut chain = Blockchain::new();
    let mut overlay = Overlay::new(&chain);
    let block0 = genesis_block(vec![genesis_stake_tx(ALICE_SK, 1000, 1)]);
    assert_eq!(verify_block(&mut overlay, &tk(0), &block0, None, false), Ok(()));
    assert_eq!(chain.commit(overlay), Ok(()));
    assert_eq!(chain.blocks.len(), 1);
    assert_eq!(chain.state.coins.len(), 1);

    // Verifying the committed block again reports it and changes
    // nothing.
    let mut overlay2 = Overlay::new(&chain);
    let staged_before = overlay2.staged.len();
    let coins_before = overlay2.state.coins.len();
    assert_eq!(
        verify_block(&mut overlay2, &tk(0), &block0, None, false),
        Err(Error::BlockAlreadyExists)
    );
    assert_eq!(overlay2.staged.len(), staged_before);
    assert_eq!(overlay2.state.coins.len(), coins_before);

    // A non-genesis block needs its predecessor.
    let pk = public_key_of(ALICE_SK);
    let staked_coin = coin_commit(pk, 1000, TOKEN, 1);
    let proposal = transition_tx(CONSENSUS_PROPOSAL, ALICE_SK, staked_coin, 1, 1000 + REWARD, 2);
    let block1 = Block {
        header: Header {
            slot: 1,
            previous: block0.blockhash(),
            tx_root: compute_tx_root(&vec![]),
            producer: pk,
        },
        proposal,
        txs: vec![],
    };
    // A block at the wrong verifying slot is refused.
    assert_eq!(
        verify_block(&mut overlay2, &tk(2), &block1, Some(&block0), false),
        Err(Error::VerifyingSlotMismatch)
    );
    assert_eq!(
        verify_block(&mut overlay2, &tk(1), &block1, None, false),
        Err(Error::BlockPreviousMissing)
    );
    assert_eq!(verify_block(&mut overlay2, &tk(1), &block1, Some(&block0), false), Ok(()));
    assert_eq!(chain.commit(overlay2), Ok(()));
    assert_eq!(chain.blocks.len(), 2);
    assert!(chain.blocks[0].header.slot < chain.blocks[1].header.slot);
    let rewarded = coin_commit(pk, 1000 + REWARD, TOKEN, 2);
    assert!(find_coin(&chain.state, rewarded).is_some());
}

#[test]
fn proposal_transaction_rules() {
    let (_chain, mut overlay) = fresh_overlay();
    // At genesis only the canonical empty proposal passes.
    let default = Transaction::default();
    assert_eq!(verify_proposal_transaction(&mut overlay, &tk(0), &default), Ok(()));
    let not_default = genesis_stake_tx(ALICE_SK, 1000, 1);
    assert_eq!(
        verify_proposal_transaction(&mut overlay, &tk(0), &not_default),
        Err(Error::MalformedEncoding)
    );
    // Outside genesis the proposal must be one consensus-proposal call.
    assert_eq!(
        verify_proposal_transaction(&mut overlay, &tk(1), &default),
        Err(Error::MalformedEncoding)
    );
}

#[test]
fn erroneous_transaction_leaves_no_trace() {
    // A rejected transaction's nullifier and coin stay out of the
    // state; the accepted one's land.
    let (_chain, mut overlay) = fresh_overlay();
    let good = genesis_stake_tx(ALICE_SK, 1000, 1);
    let bad = genesis_stake_tx(9, 500, 1);
    // Spoil the bad one's proof so it fails after its call ran.
    let mut bad = bad;
    bad.proofs[0][0].payload ^= 1;
    let bad_nullifier = mix(mix(9u64, 1_000_000), 1u64);
    let erroneous = verify_transactions(&mut overlay, &tk(0), &vec![good, bad]).unwrap();
    assert_eq!(erroneous.len(), 1);
    assert!(!overlay.state.nullifiers.contains(&bad_nullifier));
    assert!(overlay.state.nullifiers.contains(&mix(mix(ALICE_SK, 1_000_000), 1u64)));
    let pk9 = public_key_of(9);
    assert!(find_coin(&overlay.state, coin_commit(pk9, 500, TOKEN, 1)).is_none());
}
