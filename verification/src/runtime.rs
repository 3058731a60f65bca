//! The native contract runtime.
//!
//! Contracts here are the engine's own: the money contract (transfers
//! and atomic swaps) and the consensus contract (the staked-coin
//! lifecycle).  Each call runs through three deterministic entry
//! points in strict order — `metadata` names the proofs and signing
//! keys the call demands, `exec` checks the rules and produces a state
//! update, and `apply` writes the update into the overlay state.
//! Every entry point is mirrored by a specification function, and the
//! executable runtime is proved to return exactly what the mirror
//! says.

use vstd::prelude::*;

use crate::error::Error;
use crate::serial::{
    dec_list, dec_list_items, dec_u32, dec_u64, enc_list, enc_list_items, enc_u64, enc_varint,
    dec_varint, encode_u64, encode_varint, decode_u64, decode_varint, decode_u32,
    lemma_dec_enc_list, lemma_dec_enc_u64, lemma_enc_list_items_snoc,
};
use crate::state::{CoinKind, CoinRecord, StateV, ValidatorState, lookup_coin};
use crate::types::{CallV, ContractCall, TimeKeeper, dec_call_list, decode_call_list};
use crate::state::{contains_u64, find_coin, has_nullifier, records_contain, lemma_lookup_coin_none, state_wf, no_dup};

verus! {

// ---------------------------------------------------------------------
// Identifiers, selectors and timing constants
// ---------------------------------------------------------------------

/// Identifier of the native money contract.
pub const MONEY_CONTRACT_ID: u64 = 101;

/// Identifier of the native consensus contract.
pub const CONSENSUS_CONTRACT_ID: u64 = 102;

/// Identifier of the native deployment contract.
pub const DEPLOY_CONTRACT_ID: u64 = 103;

/// Proof namespace of the money burn circuit.
pub const NS_MONEY_BURN: u64 = 1;

/// Proof namespace of the money mint circuit.
pub const NS_MONEY_MINT: u64 = 2;

/// Proof namespace of the consensus burn circuit.
pub const NS_CONSENSUS_BURN: u64 = 3;

/// Proof namespace of the consensus mint circuit.
pub const NS_CONSENSUS_MINT: u64 = 4;

/// Money function selector: transfer.
pub const MONEY_TRANSFER: u8 = 0x01;

/// Money function selector: atomic swap, settled with transfer
/// semantics.
pub const MONEY_OTC_SWAP: u8 = 0x03;

/// Consensus function selector: genesis stake.
pub const CONSENSUS_GENESIS_STAKE: u8 = 0x01;

/// Consensus function selector: block proposal.
pub const CONSENSUS_PROPOSAL: u8 = 0x02;

/// Consensus function selector: unstake request.
pub const CONSENSUS_UNSTAKE_REQUEST: u8 = 0x03;

/// Consensus function selector: unstake.
pub const CONSENSUS_UNSTAKE: u8 = 0x04;

/// Number of slots in an epoch.
pub const EPOCH_LENGTH: u64 = 10;

/// Number of epochs in the grace period.
pub const GRACE_PERIOD: u64 = 2;

/// Reward minted into the staked coin of an accepted proposal.
pub const REWARD: u64 = 1;

/// The grace period, in epochs.
pub fn calculate_grace_period() -> (r: u64)
    ensures
        r == GRACE_PERIOD,
{
    GRACE_PERIOD
}

/// The grace period, in slots.
pub open spec fn grace_slots() -> int {
    GRACE_PERIOD as int * EPOCH_LENGTH as int
}

// ---------------------------------------------------------------------
// Call parameters
// ---------------------------------------------------------------------

/// A spent coin: its commitment, the nullifier that marks the spend,
/// and the key that signs for it.
#[derive(Clone, Copy, Debug, PartialEq, Eq, Structural)]
pub struct SpendInput {
    pub coin: u64,
    pub nullifier: u64,
    pub sig_public: u64,
}

/// A minted coin: its commitment, opened value, and holder key.
#[derive(Clone, Copy, Debug, PartialEq, Eq, Structural)]
pub struct CallOutput {
    pub coin: u64,
    pub value: u64,
    pub pubkey: u64,
}

/// Parameters of the three staked-coin transitions: one burnt coin,
/// one minted coin.
#[derive(Clone, Copy, Debug, PartialEq, Eq, Structural)]
pub struct ConsensusParams {
    pub input: SpendInput,
    pub output: CallOutput,
}

/// Parameters of a genesis stake: the minted staked coin, the
/// nullifier that makes the stake one-shot, and the signing key.
#[derive(Clone, Copy, Debug, PartialEq, Eq, Structural)]
pub struct GenesisStakeParams {
    pub nullifier: u64,
    pub sig_public: u64,
    pub output: CallOutput,
}

/// Parameters of a transfer or swap: burnt coins and minted coins.
#[derive(Debug)]
pub struct TransferParams {
    pub inputs: Vec<SpendInput>,
    pub outputs: Vec<CallOutput>,
}

#[verifier::ext_equal]
pub ghost struct TransferV {
    pub inputs: Seq<SpendInput>,
    pub outputs: Seq<CallOutput>,
}

impl View for TransferParams {
    type V = TransferV;

    open spec fn view(&self) -> TransferV {
        TransferV { inputs: self.inputs@, outputs: self.outputs@ }
    }
}

// ---------------------------------------------------------------------
// Parameter codecs
// ---------------------------------------------------------------------

pub open spec fn enc_spend_input(x: SpendInput) -> Seq<u8> {
    enc_u64(x.coin) + enc_u64(x.nullifier) + enc_u64(x.sig_public)
}

pub open spec fn dec_spend_input(s: Seq<u8>) -> Option<(SpendInput, int)> {
    match dec_u64(s) {
        None => None,
        Some((coin, k1)) => match dec_u64(s.skip(k1)) {
            None => None,
            Some((nullifier, k2)) => match dec_u64(s.skip(k1 + k2)) {
                None => None,
                Some((sig_public, k3)) => Some(
                    (SpendInput { coin, nullifier, sig_public }, k1 + k2 + k3),
                ),
            },
        },
    }
}

pub proof fn lemma_dec_enc_spend_input(x: SpendInput, rest: Seq<u8>)
    ensures
        dec_spend_input(enc_spend_input(x) + rest) == Some(
            (x, enc_spend_input(x).len() as int),
        ),
        enc_spend_input(x).len() == 24,
{
    let s = enc_spend_input(x) + rest;
    lemma_dec_enc_u64(x.coin, enc_u64(x.nullifier) + (enc_u64(x.sig_public) + rest));
    assert(s =~= enc_u64(x.coin) + (enc_u64(x.nullifier) + (enc_u64(x.sig_public) + rest)));
    lemma_dec_enc_u64(x.nullifier, enc_u64(x.sig_public) + rest);
    assert(s.skip(8) =~= enc_u64(x.nullifier) + (enc_u64(x.sig_public) + rest));
    lemma_dec_enc_u64(x.sig_public, rest);
    assert(s.skip(16) =~= enc_u64(x.sig_public) + rest);
}

fn encode_spend_input(x: &SpendInput, out: &mut Vec<u8>)
    ensures
        final(out)@ == old(out)@ + enc_spend_input(*x),
{
    encode_u64(x.coin, out);
    encode_u64(x.nullifier, out);
    encode_u64(x.sig_public, out);
    proof {
        assert(out@ =~= old(out)@ + enc_spend_input(*x));
    }
}

fn decode_spend_input(data: &Vec<u8>, pos: usize) -> (r: Result<(SpendInput, usize), Error>)
    requires
        pos <= data@.len(),
    ensures
        match r {
            Ok(p) => {
                &&& dec_spend_input(data@.skip(pos as int)) == Some((p.0, p.1 - pos))
                &&& pos <= p.1 <= data@.len()
            },
            Err(e) => dec_spend_input(data@.skip(pos as int)) is None && e
                == Error::MalformedEncoding,
        },
{
    let ghost s = data@.skip(pos as int);
    let (coin, p1) = match decode_u64(data, pos) {
        Ok(p) => p,
        Err(e) => {
            return Err(e);
        },
    };
    proof {
        assert(data@.skip(p1 as int) =~= s.skip(p1 - pos));
    }
    let (nullifier, p2) = match decode_u64(data, p1) {
        Ok(p) => p,
        Err(e) => {
            return Err(e);
        },
    };
    proof {
        assert(data@.skip(p2 as int) =~= s.skip((p1 - pos) + (p2 - p1)));
    }
    let (sig_public, p3) = match decode_u64(data, p2) {
        Ok(p) => p,
        Err(e) => {
            return Err(e);
        },
    };
    Ok((SpendInput { coin, nullifier, sig_public }, p3))
}

pub open spec fn enc_call_output(x: CallOutput) -> Seq<u8> {
    enc_u64(x.coin) + enc_u64(x.value) + enc_u64(x.pubkey)
}

pub open spec fn dec_call_output(s: Seq<u8>) -> Option<(CallOutput, int)> {
    match dec_u64(s) {
        None => None,
        Some((coin, k1)) => match dec_u64(s.skip(k1)) {
            None => None,
            Some((value, k2)) => match dec_u64(s.skip(k1 + k2)) {
                None => None,
                Some((pubkey, k3)) => Some((CallOutput { coin, value, pubkey }, k1 + k2 + k3)),
            },
        },
    }
}

pub proof fn lemma_dec_enc_call_output(x: CallOutput, rest: Seq<u8>)
    ensures
        dec_call_output(enc_call_output(x) + rest) == Some(
            (x, enc_call_output(x).len() as int),
        ),
        enc_call_output(x).len() == 24,
{
    let s = enc_call_output(x) + rest;
    lemma_dec_enc_u64(x.coin, enc_u64(x.value) + (enc_u64(x.pubkey) + rest));
    assert(s =~= enc_u64(x.coin) + (enc_u64(x.value) + (enc_u64(x.pubkey) + rest)));
    lemma_dec_enc_u64(x.value, enc_u64(x.pubkey) + rest);
    assert(s.skip(8) =~= enc_u64(x.value) + (enc_u64(x.pubkey) + rest));
    lemma_dec_enc_u64(x.pubkey, rest);
    assert(s.skip(16) =~= enc_u64(x.pubkey) + rest);
}

fn encode_call_output(x: &CallOutput, out: &mut Vec<u8>)
    ensures
        final(out)@ == old(out)@ + enc_call_output(*x),
{
    encode_u64(x.coin, out);
    encode_u64(x.value, out);
    encode_u64(x.pubkey, out);
    proof {
        assert(out@ =~= old(out)@ + enc_call_output(*x));
    }
}

fn decode_call_output(data: &Vec<u8>, pos: usize) -> (r: Result<(CallOutput, usize), Error>)
    requires
        pos <= data@.len(),
    ensures
        match r {
            Ok(p) => {
                &&& dec_call_output(data@.skip(pos as int)) == Some((p.0, p.1 - pos))
                &&& pos <= p.1 <= data@.len()
            },
            Err(e) => dec_call_output(data@.skip(pos as int)) is None && e
                == Error::MalformedEncoding,
        },
{
    let ghost s = data@.skip(pos as int);
    let (coin, p1) = match decode_u64(data, pos) {
        Ok(p) => p,
        Err(e) => {
            return Err(e);
        },
    };
    proof {
        assert(data@.skip(p1 as int) =~= s.skip(p1 - pos));
    }
    let (value, p2) = match decode_u64(data, p1) {
        Ok(p) => p,
        Err(e) => {
            return Err(e);
        },
    };
    proof {
        assert(data@.skip(p2 as int) =~= s.skip((p1 - pos) + (p2 - p1)));
    }
    let (pubkey, p3) = match decode_u64(data, p2) {
        Ok(p) => p,
        Err(e) => {
            return Err(e);
        },
    };
    Ok((CallOutput { coin, value, pubkey }, p3))
}

pub open spec fn enc_consensus_params(x: ConsensusParams) -> Seq<u8> {
    enc_spend_input(x.input) + enc_call_output(x.output)
}

pub open spec fn dec_consensus_params(s: Seq<u8>) -> Option<(ConsensusParams, int)> {
    match dec_spend_input(s) {
        None => None,
        Some((input, k1)) => match dec_call_output(s.skip(k1)) {
            None => None,
            Some((output, k2)) => Some((ConsensusParams { input, output }, k1 + k2)),
        },
    }
}

pub proof fn lemma_dec_enc_consensus_params(x: ConsensusParams, rest: Seq<u8>)
    ensures
        dec_consensus_params(enc_consensus_params(x) + rest) == Some(
            (x, enc_consensus_params(x).len() as int),
        ),
{
    let s = enc_consensus_params(x) + rest;
    lemma_dec_enc_spend_input(x.input, enc_call_output(x.output) + rest);
    assert(s =~= enc_spend_input(x.input) + (enc_call_output(x.output) + rest));
    lemma_dec_enc_call_output(x.output, rest);
    assert(s.skip(24) =~= enc_call_output(x.output) + rest);
}

/// Encode consensus transition parameters.
pub fn encode_consensus_params(x: &ConsensusParams, out: &mut Vec<u8>)
    ensures
        final(out)@ == old(out)@ + enc_consensus_params(*x),
{
    encode_spend_input(&x.input, out);
    encode_call_output(&x.output, out);
    proof {
        assert(out@ =~= old(out)@ + enc_consensus_params(*x));
    }
}

fn decode_consensus_params(data: &Vec<u8>, pos: usize) -> (r: Result<
    (ConsensusParams, usize),
    Error,
>)
    requires
        pos <= data@.len(),
    ensures
        match r {
            Ok(p) => {
                &&& dec_consensus_params(data@.skip(pos as int)) == Some((p.0, p.1 - pos))
                &&& pos <= p.1 <= data@.len()
            },
            Err(e) => dec_consensus_params(data@.skip(pos as int)) is None && e
                == Error::MalformedEncoding,
        },
{
    let ghost s = data@.skip(pos as int);
    let (input, p1) = match decode_spend_input(data, pos) {
        Ok(p) => p,
        Err(e) => {
            return Err(e);
        },
    };
    proof {
        assert(data@.skip(p1 as int) =~= s.skip(p1 - pos));
    }
    let (output, p2) = match decode_call_output(data, p1) {
        Ok(p) => p,
        Err(e) => {
            return Err(e);
        },
    };
    Ok((ConsensusParams { input, output }, p2))
}

pub open spec fn enc_genesis_params(x: GenesisStakeParams) -> Seq<u8> {
    enc_u64(x.nullifier) + enc_u64(x.sig_public) + enc_call_output(x.output)
}

pub open spec fn dec_genesis_params(s: Seq<u8>) -> Option<(GenesisStakeParams, int)> {
    match dec_u64(s) {
        None => None,
        Some((nullifier, k1)) => match dec_u64(s.skip(k1)) {
            None => None,
            Some((sig_public, k2)) => match dec_call_output(s.skip(k1 + k2)) {
                None => None,
                Some((output, k3)) => Some(
                    (GenesisStakeParams { nullifier, sig_public, output }, k1 + k2 + k3),
                ),
            },
        },
    }
}

pub proof fn lemma_dec_enc_genesis_params(x: GenesisStakeParams, rest: Seq<u8>)
    ensures
        dec_genesis_params(enc_genesis_params(x) + rest) == Some(
            (x, enc_genesis_params(x).len() as int),
        ),
{
    let s = enc_genesis_params(x) + rest;
    lemma_dec_enc_u64(x.nullifier, enc_u64(x.sig_public) + (enc_call_output(x.output) + rest));
    assert(s =~= enc_u64(x.nullifier) + (enc_u64(x.sig_public) + (enc_call_output(x.output)
        + rest)));
    lemma_dec_enc_u64(x.sig_public, enc_call_output(x.output) + rest);
    assert(s.skip(8) =~= enc_u64(x.sig_public) + (enc_call_output(x.output) + rest));
    lemma_dec_enc_call_output(x.output, rest);
    assert(s.skip(16) =~= enc_call_output(x.output) + rest);
}

/// Encode genesis-stake parameters.
pub fn encode_genesis_params(x: &GenesisStakeParams, out: &mut Vec<u8>)
    ensures
        final(out)@ == old(out)@ + enc_genesis_params(*x),
{
    encode_u64(x.nullifier, out);
    encode_u64(x.sig_public, out);
    encode_call_output(&x.output, out);
    proof {
        assert(out@ =~= old(out)@ + enc_genesis_params(*x));
    }
}

fn decode_genesis_params(data: &Vec<u8>, pos: usize) -> (r: Result<
    (GenesisStakeParams, usize),
    Error,
>)
    requires
        pos <= data@.len(),
    ensures
        match r {
            Ok(p) => {
                &&& dec_genesis_params(data@.skip(pos as int)) == Some((p.0, p.1 - pos))
                &&& pos <= p.1 <= data@.len()
            },
            Err(e) => dec_genesis_params(data@.skip(pos as int)) is None && e
                == Error::MalformedEncoding,
        },
{
    let ghost s = data@.skip(pos as int);
    let (nullifier, p1) = match decode_u64(data, pos) {
        Ok(p) => p,
        Err(e) => {
            return Err(e);
        },
    };
    proof {
        assert(data@.skip(p1 as int) =~= s.skip(p1 - pos));
    }
    let (sig_public, p2) = match decode_u64(data, p1) {
        Ok(p) => p,
        Err(e) => {
            return Err(e);
        },
    };
    proof {
        assert(data@.skip(p2 as int) =~= s.skip((p1 - pos) + (p2 - p1)));
    }
    let (output, p3) = match decode_call_output(data, p2) {
        Ok(p) => p,
        Err(e) => {
            return Err(e);
        },
    };
    Ok((GenesisStakeParams { nullifier, sig_public, output }, p3))
}

pub open spec fn enc_spend_input_fn() -> spec_fn(SpendInput) -> Seq<u8> {
    |x: SpendInput| enc_spend_input(x)
}

pub open spec fn dec_spend_input_fn() -> spec_fn(Seq<u8>) -> Option<(SpendInput, int)> {
    |s: Seq<u8>| dec_spend_input(s)
}

pub open spec fn any_spend_input_fn() -> spec_fn(SpendInput) -> bool {
    |x: SpendInput| true
}

pub open spec fn enc_input_list(items: Seq<SpendInput>) -> Seq<u8> {
    enc_list(items, enc_spend_input_fn())
}

pub open spec fn dec_input_list(s: Seq<u8>) -> Option<(Seq<SpendInput>, int)> {
    dec_list(s, dec_spend_input_fn())
}

pub proof fn lemma_dec_enc_input_list(items: Seq<SpendInput>, rest: Seq<u8>)
    requires
        items.len() <= u64::MAX,
    ensures
        dec_input_list(enc_input_list(items) + rest) == Some(
            (items, enc_input_list(items).len() as int),
        ),
{
    assert forall|x: SpendInput, r: Seq<u8>|
        any_spend_input_fn()(x) implies #[trigger] dec_spend_input_fn()(
        enc_spend_input_fn()(x) + r,
    ) == Some((x, enc_spend_input_fn()(x).len() as int)) by {
        lemma_dec_enc_spend_input(x, r);
    }
    lemma_dec_enc_list(items, rest, enc_spend_input_fn(), dec_spend_input_fn(),
        any_spend_input_fn());
}

fn encode_input_list(items: &Vec<SpendInput>, out: &mut Vec<u8>)
    ensures
        final(out)@ == old(out)@ + enc_input_list(items@),
{
    encode_varint(items.len() as u64, out);
    let ghost base = out@;
    let mut i: usize = 0;
    proof {
        assert(items@.take(0) =~= Seq::<SpendInput>::empty());
        assert(out@ =~= base + enc_list_items(items@.take(0), enc_spend_input_fn()));
    }
    while i < items.len()
        invariant
            i <= items@.len(),
            out@ == base + enc_list_items(items@.take(i as int), enc_spend_input_fn()),
        decreases items@.len() - i,
    {
        encode_spend_input(&items[i], out);
        proof {
            assert(items@.take(i + 1) =~= items@.take(i as int).push(items@[i as int]));
            lemma_enc_list_items_snoc(items@.take(i as int), items@[i as int],
                enc_spend_input_fn());
            assert(enc_spend_input_fn()(items@[i as int]) == enc_spend_input(items@[i as int]));
            assert(out@ =~= base + enc_list_items(items@.take(i + 1), enc_spend_input_fn()));
        }
        i = i + 1;
    }
    proof {
        assert(items@.take(items@.len() as int) =~= items@);
        assert(out@ =~= old(out)@ + enc_input_list(items@));
    }
}

fn decode_input_list(data: &Vec<u8>, pos: usize) -> (r: Result<(Vec<SpendInput>, usize), Error>)
    requires
        pos <= data@.len(),
    ensures
        match r {
            Ok(p) => {
                &&& dec_input_list(data@.skip(pos as int)) == Some((p.0@, p.1 - pos))
                &&& pos <= p.1 <= data@.len()
            },
            Err(e) => dec_input_list(data@.skip(pos as int)) is None && e
                == Error::MalformedEncoding,
        },
{
    let ghost s0 = data@.skip(pos as int);
    let dlen = data.len();
    let (n, mid) = match decode_varint(data, pos) {
        Ok(p) => p,
        Err(e) => {
            return Err(e);
        },
    };
    let mut items: Vec<SpendInput> = Vec::new();
    let mut p = mid;
    let mut i: u64 = 0;
    proof {
        assert(data@.skip(mid as int) =~= s0.skip(mid - pos));
    }
    while i < n
        invariant
            i <= n,
            pos <= mid <= p <= data@.len(),
            data@.len() == dlen,
            dec_varint(s0) == Some((n, mid - pos)),
            s0 == data@.skip(pos as int),
            data@.skip(mid as int) == s0.skip(mid - pos),
            match dec_list_items(data@.skip(p as int), (n - i) as nat, dec_spend_input_fn()) {
                Some(d) => dec_list_items(data@.skip(mid as int), n as nat, dec_spend_input_fn())
                    == Some((items@ + d.0, (p - mid) + d.1)),
                None => dec_list_items(data@.skip(mid as int), n as nat, dec_spend_input_fn())
                    is None,
            },
        decreases n - i,
    {
        let ghost before = items@;
        match decode_spend_input(data, p) {
            Err(e) => {
                proof {
                    assert(dec_spend_input_fn()(data@.skip(p as int)) is None);
                }
                return Err(e);
            },
            Ok((x, p2)) => {
                proof {
                    assert(dec_spend_input_fn()(data@.skip(p as int)) == Some((x, p2 - p)));
                    assert(data@.skip(p as int).skip(p2 - p) =~= data@.skip(p2 as int));
                    match dec_list_items(
                        data@.skip(p2 as int),
                        (n - i - 1) as nat,
                        dec_spend_input_fn(),
                    ) {
                        Some(d2) => {
                            assert((before + (seq![x] + d2.0)) =~= (before.push(x) + d2.0));
                        },
                        None => {},
                    }
                }
                items.push(x);
                p = p2;
                i = i + 1;
            },
        }
    }
    proof {
        assert(dec_list_items(data@.skip(p as int), 0, dec_spend_input_fn()) == Some(
            (Seq::<SpendInput>::empty(), 0int),
        ));
        assert(items@ + Seq::<SpendInput>::empty() =~= items@);
    }
    Ok((items, p))
}

pub open spec fn enc_call_output_fn() -> spec_fn(CallOutput) -> Seq<u8> {
    |x: CallOutput| enc_call_output(x)
}

pub open spec fn dec_call_output_fn() -> spec_fn(Seq<u8>) -> Option<(CallOutput, int)> {
    |s: Seq<u8>| dec_call_output(s)
}

pub open spec fn any_call_output_fn() -> spec_fn(CallOutput) -> bool {
    |x: CallOutput| true
}

pub open spec fn enc_output_list(items: Seq<CallOutput>) -> Seq<u8> {
    enc_list(items, enc_call_output_fn())
}

pub open spec fn dec_output_list(s: Seq<u8>) -> Option<(Seq<CallOutput>, int)> {
    dec_list(s, dec_call_output_fn())
}

pub proof fn lemma_dec_enc_output_list(items: Seq<CallOutput>, rest: Seq<u8>)
    requires
        items.len() <= u64::MAX,
    ensures
        dec_output_list(enc_output_list(items) + rest) == Some(
            (items, enc_output_list(items).len() as int),
        ),
{
    assert forall|x: CallOutput, r: Seq<u8>|
        any_call_output_fn()(x) implies #[trigger] dec_call_output_fn()(
        enc_call_output_fn()(x) + r,
    ) == Some((x, enc_call_output_fn()(x).len() as int)) by {
        lemma_dec_enc_call_output(x, r);
    }
    lemma_dec_enc_list(items, rest, enc_call_output_fn(), dec_call_output_fn(),
        any_call_output_fn());
}

fn encode_output_list(items: &Vec<CallOutput>, out: &mut Vec<u8>)
    ensures
        final(out)@ == old(out)@ + enc_output_list(items@),
{
    encode_varint(items.len() as u64, out);
    let ghost base = out@;
    let mut i: usize = 0;
    proof {
        assert(items@.take(0) =~= Seq::<CallOutput>::empty());
        assert(out@ =~= base + enc_list_items(items@.take(0), enc_call_output_fn()));
    }
    while i < items.len()
        invariant
            i <= items@.len(),
            out@ == base + enc_list_items(items@.take(i as int), enc_call_output_fn()),
        decreases items@.len() - i,
    {
        encode_call_output(&items[i], out);
        proof {
            assert(items@.take(i + 1) =~= items@.take(i as int).push(items@[i as int]));
            lemma_enc_list_items_snoc(items@.take(i as int), items@[i as int],
                enc_call_output_fn());
            assert(enc_call_output_fn()(items@[i as int]) == enc_call_output(items@[i as int]));
            assert(out@ =~= base + enc_list_items(items@.take(i + 1), enc_call_output_fn()));
        }
        i = i + 1;
    }
    proof {
        assert(items@.take(items@.len() as int) =~= items@);
        assert(out@ =~= old(out)@ + enc_output_list(items@));
    }
}

fn decode_output_list(data: &Vec<u8>, pos: usize) -> (r: Result<(Vec<CallOutput>, usize), Error>)
    requires
        pos <= data@.len(),
    ensures
        match r {
            Ok(p) => {
                &&& dec_output_list(data@.skip(pos as int)) == Some((p.0@, p.1 - pos))
                &&& pos <= p.1 <= data@.len()
            },
            Err(e) => dec_output_list(data@.skip(pos as int)) is None && e
                == Error::MalformedEncoding,
        },
{
    let ghost s0 = data@.skip(pos as int);
    let dlen = data.len();
    let (n, mid) = match decode_varint(data, pos) {
        Ok(p) => p,
        Err(e) => {
            return Err(e);
        },
    };
    let mut items: Vec<CallOutput> = Vec::new();
    let mut p = mid;
    let mut i: u64 = 0;
    proof {
        assert(data@.skip(mid as int) =~= s0.skip(mid - pos));
    }
    while i < n
        invariant
            i <= n,
            pos <= mid <= p <= data@.len(),
            data@.len() == dlen,
            dec_varint(s0) == Some((n, mid - pos)),
            s0 == data@.skip(pos as int),
            data@.skip(mid as int) == s0.skip(mid - pos),
            match dec_list_items(data@.skip(p as int), (n - i) as nat, dec_call_output_fn()) {
                Some(d) => dec_list_items(data@.skip(mid as int), n as nat, dec_call_output_fn())
                    == Some((items@ + d.0, (p - mid) + d.1)),
                None => dec_list_items(data@.skip(mid as int), n as nat, dec_call_output_fn())
                    is None,
            },
        decreases n - i,
    {
        let ghost before = items@;
        match decode_call_output(data, p) {
            Err(e) => {
                proof {
                    assert(dec_call_output_fn()(data@.skip(p as int)) is None);
                }
                return Err(e);
            },
            Ok((x, p2)) => {
                proof {
                    assert(dec_call_output_fn()(data@.skip(p as int)) == Some((x, p2 - p)));
                    assert(data@.skip(p as int).skip(p2 - p) =~= data@.skip(p2 as int));
                    match dec_list_items(
                        data@.skip(p2 as int),
                        (n - i - 1) as nat,
                        dec_call_output_fn(),
                    ) {
                        Some(d2) => {
                            assert((before + (seq![x] + d2.0)) =~= (before.push(x) + d2.0));
                        },
                        None => {},
                    }
                }
                items.push(x);
                p = p2;
                i = i + 1;
            },
        }
    }
    proof {
        assert(dec_list_items(data@.skip(p as int), 0, dec_call_output_fn()) == Some(
            (Seq::<CallOutput>::empty(), 0int),
        ));
        assert(items@ + Seq::<CallOutput>::empty() =~= items@);
    }
    Ok((items, p))
}

pub open spec fn enc_transfer_params(x: TransferV) -> Seq<u8> {
    enc_input_list(x.inputs) + enc_output_list(x.outputs)
}

pub open spec fn dec_transfer_params(s: Seq<u8>) -> Option<(TransferV, int)> {
    match dec_input_list(s) {
        None => None,
        Some((inputs, k1)) => match dec_output_list(s.skip(k1)) {
            None => None,
            Some((outputs, k2)) => Some((TransferV { inputs, outputs }, k1 + k2)),
        },
    }
}

pub proof fn lemma_dec_enc_transfer_params(x: TransferV, rest: Seq<u8>)
    requires
        x.inputs.len() <= u64::MAX,
        x.outputs.len() <= u64::MAX,
    ensures
        dec_transfer_params(enc_transfer_params(x) + rest) == Some(
            (x, enc_transfer_params(x).len() as int),
        ),
{
    let s = enc_transfer_params(x) + rest;
    lemma_dec_enc_input_list(x.inputs, enc_output_list(x.outputs) + rest);
    assert(s =~= enc_input_list(x.inputs) + (enc_output_list(x.outputs) + rest));
    lemma_dec_enc_output_list(x.outputs, rest);
    assert(s.skip(enc_input_list(x.inputs).len() as int) =~= enc_output_list(x.outputs) + rest);
}

/// Encode transfer parameters.
pub fn encode_transfer_params(x: &TransferParams, out: &mut Vec<u8>)
    ensures
        final(out)@ == old(out)@ + enc_transfer_params(x@),
{
    encode_input_list(&x.inputs, out);
    encode_output_list(&x.outputs, out);
    proof {
        assert(out@ =~= old(out)@ + enc_transfer_params(x@));
    }
}

fn decode_transfer_params(data: &Vec<u8>, pos: usize) -> (r: Result<
    (TransferParams, usize),
    Error,
>)
    requires
        pos <= data@.len(),
    ensures
        match r {
            Ok(p) => {
                &&& dec_transfer_params(data@.skip(pos as int)) == Some((p.0@, p.1 - pos))
                &&& pos <= p.1 <= data@.len()
            },
            Err(e) => dec_transfer_params(data@.skip(pos as int)) is None && e
                == Error::MalformedEncoding,
        },
{
    let ghost s = data@.skip(pos as int);
    let (inputs, p1) = match decode_input_list(data, pos) {
        Ok(p) => p,
        Err(e) => {
            return Err(e);
        },
    };
    proof {
        assert(data@.skip(p1 as int) =~= s.skip(p1 - pos));
    }
    let (outputs, p2) = match decode_output_list(data, p1) {
        Ok(p) => p,
        Err(e) => {
            return Err(e);
        },
    };
    let t = TransferParams { inputs, outputs };
    proof {
        assert(dec_transfer_params(s) == Some((t@, p2 - pos)));
    }
    Ok((t, p2))
}

// ---------------------------------------------------------------------
// State updates
// ---------------------------------------------------------------------

/// The writes a call stages: spent nullifiers and minted coin records.
#[derive(Debug)]
pub struct StateUpdate {
    pub nullifiers: Vec<u64>,
    pub coins: Vec<CoinRecord>,
}

#[verifier::ext_equal]
pub ghost struct UpdateV {
    pub nullifiers: Seq<u64>,
    pub coins: Seq<CoinRecord>,
}

impl View for StateUpdate {
    type V = UpdateV;

    open spec fn view(&self) -> UpdateV {
        UpdateV { nullifiers: self.nullifiers@, coins: self.coins@ }
    }
}

/// The state after an update lands: nullifiers and coins appended.
pub open spec fn apply_update_spec(st: StateV, u: UpdateV) -> StateV {
    StateV {
        nullifiers: st.nullifiers + u.nullifiers,
        coins: st.coins + u.coins,
        vks: st.vks,
    }
}

// ---------------------------------------------------------------------
// Specification mirrors of the contract rules
// ---------------------------------------------------------------------

/// Check the first `k` inputs of a transfer: every coin must be a
/// recorded spendable coin, and no nullifier may repeat or be already
/// spent.  Yields the spent nullifiers and the burnt value.
pub open spec fn transfer_inputs_spec(st: StateV, inputs: Seq<SpendInput>, k: int) -> Result<
    (Seq<u64>, int),
    Error,
>
    decreases k,
{
    if k <= 0 {
        Ok((Seq::empty(), 0int))
    } else {
        match transfer_inputs_spec(st, inputs, k - 1) {
            Err(e) => Err(e),
            Ok((nfs, total)) => {
                let inp = inputs[k - 1];
                match lookup_coin(st.coins, inp.coin) {
                    None => Err(Error::CommitmentMismatch),
                    Some(rec) => {
                        if rec.kind != CoinKind::Money {
                            Err(Error::CommitmentMismatch)
                        } else if st.nullifiers.contains(inp.nullifier) || nfs.contains(
                            inp.nullifier,
                        ) {
                            Err(Error::DoubleSpend)
                        } else {
                            Ok((nfs.push(inp.nullifier), total + rec.value))
                        }
                    },
                }
            },
        }
    }
}

/// Check the first `k` outputs of a transfer: every minted coin must
/// be fresh.  Yields the minted records and their value.
pub open spec fn transfer_outputs_spec(
    st: StateV,
    outputs: Seq<CallOutput>,
    k: int,
    slot: u64,
) -> Result<(Seq<CoinRecord>, int), Error>
    decreases k,
{
    if k <= 0 {
        Ok((Seq::empty(), 0int))
    } else {
        match transfer_outputs_spec(st, outputs, k - 1, slot) {
            Err(e) => Err(e),
            Ok((recs, total)) => {
                let o = outputs[k - 1];
                if lookup_coin(st.coins, o.coin) is Some || lookup_coin(recs, o.coin) is Some {
                    Err(Error::CommitmentMismatch)
                } else {
                    Ok(
                        (
                            recs.push(
                                CoinRecord {
                                    coin: o.coin,
                                    value: o.value,
                                    pubkey: o.pubkey,
                                    kind: CoinKind::Money,
                                    since_slot: slot,
                                },
                            ),
                            total + o.value,
                        ),
                    )
                }
            },
        }
    }
}

/// A transfer burns recorded spendable coins and mints the same total
/// value into fresh coins.
pub open spec fn transfer_exec_spec(st: StateV, p: TransferV, slot: u64) -> Result<
    UpdateV,
    Error,
> {
    if p.inputs.len() == 0 {
        Err(Error::MalformedEncoding)
    } else {
        match transfer_inputs_spec(st, p.inputs, p.inputs.len() as int) {
            Err(e) => Err(e),
            Ok((nfs, total_in)) => match transfer_outputs_spec(
                st,
                p.outputs,
                p.outputs.len() as int,
                slot,
            ) {
                Err(e) => Err(e),
                Ok((recs, total_out)) => {
                    if total_in != total_out {
                        Err(Error::CommitmentMismatch)
                    } else {
                        Ok(UpdateV { nullifiers: nfs, coins: recs })
                    }
                },
            },
        }
    }
}

/// A genesis stake mints a staked coin; it is valid only at slot zero
/// and only once per nullifier and coin.
pub open spec fn genesis_stake_exec_spec(st: StateV, p: GenesisStakeParams, slot: u64) -> Result<
    UpdateV,
    Error,
> {
    if slot != 0 {
        Err(Error::NotGenesisSlot)
    } else if st.nullifiers.contains(p.nullifier) {
        Err(Error::DoubleSpend)
    } else if lookup_coin(st.coins, p.output.coin) is Some {
        Err(Error::DuplicateStake)
    } else {
        Ok(
            UpdateV {
                nullifiers: seq![p.nullifier],
                coins: seq![
                    CoinRecord {
                        coin: p.output.coin,
                        value: p.output.value,
                        pubkey: p.output.pubkey,
                        kind: CoinKind::Staked,
                        since_slot: 0,
                    }
                ],
            },
        )
    }
}

/// A proposal burns the staked coin and mints it back with the reward
/// added.
pub open spec fn proposal_exec_spec(st: StateV, p: ConsensusParams, slot: u64) -> Result<
    UpdateV,
    Error,
> {
    match lookup_coin(st.coins, p.input.coin) {
        None => Err(Error::CommitmentMismatch),
        Some(rec) => {
            if rec.kind != CoinKind::Staked {
                Err(Error::CommitmentMismatch)
            } else if st.nullifiers.contains(p.input.nullifier) {
                Err(Error::DoubleSpend)
            } else if rec.value as int + REWARD as int != p.output.value as int {
                Err(Error::CommitmentMismatch)
            } else if lookup_coin(st.coins, p.output.coin) is Some {
                Err(Error::DuplicateStake)
            } else {
                Ok(
                    UpdateV {
                        nullifiers: seq![p.input.nullifier],
                        coins: seq![
                            CoinRecord {
                                coin: p.output.coin,
                                value: p.output.value,
                                pubkey: p.output.pubkey,
                                kind: CoinKind::Staked,
                                since_slot: slot,
                            }
                        ],
                    },
                )
            }
        },
    }
}

/// An unstake request is valid one grace period after the coin's last
/// stage change; the coin keeps its value.
pub open spec fn unstake_request_exec_spec(st: StateV, p: ConsensusParams, slot: u64) -> Result<
    UpdateV,
    Error,
> {
    match lookup_coin(st.coins, p.input.coin) {
        None => Err(Error::CommitmentMismatch),
        Some(rec) => {
            if rec.kind != CoinKind::Staked {
                Err(Error::CommitmentMismatch)
            } else if (slot as int) < rec.since_slot as int + grace_slots() {
                Err(Error::BeforeGracePeriod)
            } else if st.nullifiers.contains(p.input.nullifier) {
                Err(Error::DoubleSpend)
            } else if rec.value != p.output.value {
                Err(Error::CommitmentMismatch)
            } else if lookup_coin(st.coins, p.output.coin) is Some {
                Err(Error::DuplicateStake)
            } else {
                Ok(
                    UpdateV {
                        nullifiers: seq![p.input.nullifier],
                        coins: seq![
                            CoinRecord {
                                coin: p.output.coin,
                                value: p.output.value,
                                pubkey: p.output.pubkey,
                                kind: CoinKind::UnstakeRequested,
                                since_slot: slot,
                            }
                        ],
                    },
                )
            }
        },
    }
}

/// An unstake is valid one grace period plus one epoch after the
/// request; the coin returns to the spendable set.
pub open spec fn unstake_exec_spec(st: StateV, p: ConsensusParams, slot: u64) -> Result<
    UpdateV,
    Error,
> {
    match lookup_coin(st.coins, p.input.coin) {
        None => Err(Error::CommitmentMismatch),
        Some(rec) => {
            if rec.kind != CoinKind::UnstakeRequested {
                Err(Error::CommitmentMismatch)
            } else if (slot as int) < rec.since_slot as int + grace_slots()
                + EPOCH_LENGTH as int {
                Err(Error::BeforeGracePeriod)
            } else if st.nullifiers.contains(p.input.nullifier) {
                Err(Error::DoubleSpend)
            } else if rec.value != p.output.value {
                Err(Error::CommitmentMismatch)
            } else if lookup_coin(st.coins, p.output.coin) is Some {
                Err(Error::DuplicateStake)
            } else {
                Ok(
                    UpdateV {
                        nullifiers: seq![p.input.nullifier],
                        coins: seq![
                            CoinRecord {
                                coin: p.output.coin,
                                value: p.output.value,
                                pubkey: p.output.pubkey,
                                kind: CoinKind::Money,
                                since_slot: slot,
                            }
                        ],
                    },
                )
            }
        },
    }
}

// ---------------------------------------------------------------------
// Call dispatch
// ---------------------------------------------------------------------

/// The decoded transfer body of a money call, if its payload decodes
/// exactly.
pub open spec fn call_body_transfer(c: CallV) -> Option<TransferV> {
    if c.contract_id == MONEY_CONTRACT_ID && c.data.len() >= 1 && (c.data[0] == MONEY_TRANSFER
        || c.data[0] == MONEY_OTC_SWAP) {
        match dec_transfer_params(c.data.skip(1)) {
            Some((p, k)) => if k == c.data.len() - 1 {
                Some(p)
            } else {
                None
            },
            None => None,
        }
    } else {
        None
    }
}

/// The decoded genesis-stake body of a consensus call.
pub open spec fn call_body_genesis(c: CallV) -> Option<GenesisStakeParams> {
    if c.contract_id == CONSENSUS_CONTRACT_ID && c.data.len() >= 1 && c.data[0]
        == CONSENSUS_GENESIS_STAKE {
        match dec_genesis_params(c.data.skip(1)) {
            Some((p, k)) => if k == c.data.len() - 1 {
                Some(p)
            } else {
                None
            },
            None => None,
        }
    } else {
        None
    }
}

/// The decoded transition body of a consensus call with the given
/// selector.
pub open spec fn call_body_consensus(c: CallV, selector: u8) -> Option<ConsensusParams> {
    if c.contract_id == CONSENSUS_CONTRACT_ID && c.data.len() >= 1 && c.data[0] == selector {
        match dec_consensus_params(c.data.skip(1)) {
            Some((p, k)) => if k == c.data.len() - 1 {
                Some(p)
            } else {
                None
            },
            None => None,
        }
    } else {
        None
    }
}

pub open spec fn transfer_zkps(p: TransferV) -> Seq<(u64, Seq<u64>)> {
    p.inputs.map_values(
        |i: SpendInput| (NS_MONEY_BURN, seq![i.nullifier, i.coin, i.sig_public]),
    ) + p.outputs.map_values(|o: CallOutput| (NS_MONEY_MINT, seq![o.coin, o.value, o.pubkey]))
}

pub open spec fn transfer_sigs(p: TransferV) -> Seq<u64> {
    p.inputs.map_values(|i: SpendInput| i.sig_public)
}

pub open spec fn genesis_zkps(p: GenesisStakeParams) -> Seq<(u64, Seq<u64>)> {
    seq![
        (NS_CONSENSUS_MINT, seq![p.nullifier, p.output.coin, p.output.value, p.output.pubkey])
    ]
}

pub open spec fn transition_zkps(p: ConsensusParams) -> Seq<(u64, Seq<u64>)> {
    seq![
        (NS_CONSENSUS_BURN, seq![p.input.nullifier, p.input.coin, p.input.sig_public]),
        (NS_CONSENSUS_MINT, seq![p.output.coin, p.output.value, p.output.pubkey]),
    ]
}

/// The proofs and signing keys a call demands, read off its decoded
/// parameters alone.
pub open spec fn call_metadata_spec(c: CallV) -> Result<(Seq<(u64, Seq<u64>)>, Seq<u64>), Error> {
    if c.contract_id == MONEY_CONTRACT_ID {
        match call_body_transfer(c) {
            Some(p) => Ok((transfer_zkps(p), transfer_sigs(p))),
            None => Err(Error::MalformedEncoding),
        }
    } else if c.contract_id == CONSENSUS_CONTRACT_ID {
        if c.data.len() >= 1 && c.data[0] == CONSENSUS_GENESIS_STAKE {
            match call_body_genesis(c) {
                Some(p) => Ok((genesis_zkps(p), seq![p.sig_public])),
                None => Err(Error::MalformedEncoding),
            }
        } else if c.data.len() >= 1 && (c.data[0] == CONSENSUS_PROPOSAL || c.data[0]
            == CONSENSUS_UNSTAKE_REQUEST || c.data[0] == CONSENSUS_UNSTAKE) {
            match call_body_consensus(c, c.data[0]) {
                Some(p) => Ok((transition_zkps(p), seq![p.input.sig_public])),
                None => Err(Error::MalformedEncoding),
            }
        } else {
            Err(Error::MalformedEncoding)
        }
    } else {
        Err(Error::MalformedEncoding)
    }
}

/// The state update a call produces, or the rule it breaks.
pub open spec fn call_exec_spec(st: StateV, c: CallV, slot: u64) -> Result<UpdateV, Error> {
    if c.contract_id == MONEY_CONTRACT_ID {
        match call_body_transfer(c) {
            Some(p) => transfer_exec_spec(st, p, slot),
            None => Err(Error::MalformedEncoding),
        }
    } else if c.contract_id == CONSENSUS_CONTRACT_ID {
        if c.data.len() >= 1 && c.data[0] == CONSENSUS_GENESIS_STAKE {
            match call_body_genesis(c) {
                Some(p) => genesis_stake_exec_spec(st, p, slot),
                None => Err(Error::MalformedEncoding),
            }
        } else if c.data.len() >= 1 && c.data[0] == CONSENSUS_PROPOSAL {
            match call_body_consensus(c, CONSENSUS_PROPOSAL) {
                Some(p) => proposal_exec_spec(st, p, slot),
                None => Err(Error::MalformedEncoding),
            }
        } else if c.data.len() >= 1 && c.data[0] == CONSENSUS_UNSTAKE_REQUEST {
            match call_body_consensus(c, CONSENSUS_UNSTAKE_REQUEST) {
                Some(p) => unstake_request_exec_spec(st, p, slot),
                None => Err(Error::MalformedEncoding),
            }
        } else if c.data.len() >= 1 && c.data[0] == CONSENSUS_UNSTAKE {
            match call_body_consensus(c, CONSENSUS_UNSTAKE) {
                Some(p) => unstake_exec_spec(st, p, slot),
                None => Err(Error::MalformedEncoding),
            }
        } else {
            Err(Error::MalformedEncoding)
        }
    } else {
        Err(Error::MalformedEncoding)
    }
}

// ---------------------------------------------------------------------
// Monotonicity and soundness lemmas on the rules
// ---------------------------------------------------------------------

/// A failing input prefix fails every longer prefix with the same
/// error.
pub proof fn lemma_inputs_err_mono(st: StateV, inputs: Seq<SpendInput>, k: int, k2: int)
    requires
        0 <= k <= k2,
        transfer_inputs_spec(st, inputs, k) is Err,
    ensures
        transfer_inputs_spec(st, inputs, k2) == transfer_inputs_spec(st, inputs, k),
    decreases k2 - k,
{
    if k2 > k {
        lemma_inputs_err_mono(st, inputs, k, k2 - 1);
    }
}

/// A failing output prefix fails every longer prefix with the same
/// error.
pub proof fn lemma_outputs_err_mono(
    st: StateV,
    outputs: Seq<CallOutput>,
    k: int,
    k2: int,
    slot: u64,
)
    requires
        0 <= k <= k2,
        transfer_outputs_spec(st, outputs, k, slot) is Err,
    ensures
        transfer_outputs_spec(st, outputs, k2, slot) == transfer_outputs_spec(
            st,
            outputs,
            k,
            slot,
        ),
    decreases k2 - k,
{
    if k2 > k {
        lemma_outputs_err_mono(st, outputs, k, k2 - 1, slot);
    }
}

/// Accepted inputs spend distinct, fresh nullifiers.
pub proof fn lemma_inputs_ok(st: StateV, inputs: Seq<SpendInput>, k: int)
    requires
        0 <= k,
        transfer_inputs_spec(st, inputs, k) is Ok,
    ensures
        ({
            let nfs = transfer_inputs_spec(st, inputs, k)->Ok_0.0;
            &&& nfs.len() == k
            &&& no_dup(nfs)
            &&& forall|i: int| 0 <= i < nfs.len() ==> !st.nullifiers.contains(#[trigger] nfs[i])
        }),
    decreases k,
{
    if k > 0 {
        lemma_inputs_ok(st, inputs, k - 1);
        let prev = transfer_inputs_spec(st, inputs, k - 1)->Ok_0.0;
        let nfs = transfer_inputs_spec(st, inputs, k)->Ok_0.0;
        assert(nfs == prev.push(inputs[k - 1].nullifier));
        assert forall|i: int, j: int| 0 <= i < j < nfs.len() implies nfs[i] != nfs[j] by {
            if j < nfs.len() - 1 {
                assert(nfs[i] == prev[i] && nfs[j] == prev[j]);
            } else {
                assert(nfs[j] == inputs[k - 1].nullifier);
                assert(nfs[i] == prev[i]);
                if nfs[i] == nfs[j] {
                    assert(prev.contains(inputs[k - 1].nullifier));
                }
            }
        }
        assert forall|i: int|
            0 <= i < nfs.len() implies !st.nullifiers.contains(#[trigger] nfs[i]) by {
            if i < nfs.len() - 1 {
                assert(nfs[i] == prev[i]);
            }
        }
    }
}

/// Accepted outputs mint distinct, fresh coins.
pub proof fn lemma_outputs_ok(st: StateV, outputs: Seq<CallOutput>, k: int, slot: u64)
    requires
        0 <= k,
        transfer_outputs_spec(st, outputs, k, slot) is Ok,
    ensures
        ({
            let recs = transfer_outputs_spec(st, outputs, k, slot)->Ok_0.0;
            &&& recs.len() == k
            &&& forall|i: int, j: int|
                0 <= i < j < recs.len() ==> (#[trigger] recs[i]).coin != (
                #[trigger] recs[j]).coin
            &&& forall|i: int|
                0 <= i < recs.len() ==> lookup_coin(st.coins, (#[trigger] recs[i]).coin) is None
        }),
    decreases k,
{
    if k > 0 {
        lemma_outputs_ok(st, outputs, k - 1, slot);
        let prev = transfer_outputs_spec(st, outputs, k - 1, slot)->Ok_0.0;
        let recs = transfer_outputs_spec(st, outputs, k, slot)->Ok_0.0;
        lemma_lookup_coin_none(prev, outputs[k - 1].coin);
        assert forall|i: int, j: int|
            0 <= i < j < recs.len() implies (#[trigger] recs[i]).coin != (
        #[trigger] recs[j]).coin by {
            if j < recs.len() - 1 {
                assert(recs[i] == prev[i] && recs[j] == prev[j]);
            } else {
                assert(recs[i] == prev[i]);
            }
        }
        assert forall|i: int|
            0 <= i < recs.len() implies lookup_coin(st.coins, (#[trigger] recs[i]).coin)
            is None by {
            if i < recs.len() - 1 {
                assert(recs[i] == prev[i]);
            }
        }
    }
}

/// A call's accepted update keeps the state well formed.
pub proof fn lemma_call_exec_wf(st: StateV, c: CallV, slot: u64)
    requires
        state_wf(st),
        call_exec_spec(st, c, slot) is Ok,
    ensures
        state_wf(apply_update_spec(st, call_exec_spec(st, c, slot)->Ok_0)),
{
    let u = call_exec_spec(st, c, slot)->Ok_0;
    let st2 = apply_update_spec(st, u);
    if c.contract_id == MONEY_CONTRACT_ID {
        let p = call_body_transfer(c)->Some_0;
        lemma_inputs_ok(st, p.inputs, p.inputs.len() as int);
        lemma_outputs_ok(st, p.outputs, p.outputs.len() as int, slot);
        let nfs = transfer_inputs_spec(st, p.inputs, p.inputs.len() as int)->Ok_0.0;
        let recs = transfer_outputs_spec(st, p.outputs, p.outputs.len() as int, slot)->Ok_0.0;
        assert(u.nullifiers == nfs && u.coins == recs);
        assert forall|i: int, j: int|
            0 <= i < j < st2.nullifiers.len() implies st2.nullifiers[i] != st2.nullifiers[j] by {
            let n = st.nullifiers.len();
            if j >= n && i < n {
                assert(st2.nullifiers[j] == nfs[j - n]);
                if st2.nullifiers[i] == nfs[j - n] {
                    assert(st.nullifiers.contains(nfs[j - n]));
                }
            }
        }
        assert forall|i: int, j: int|
            0 <= i < j < st2.coins.len() implies (#[trigger] st2.coins[i]).coin != (
        #[trigger] st2.coins[j]).coin by {
            let n = st.coins.len();
            if j >= n && i < n {
                assert(st2.coins[j] == recs[j - n]);
                lemma_lookup_coin_none(st.coins, recs[j - n].coin);
            }
        }
    } else {
        let nf = u.nullifiers[0];
        let rec = u.coins[0];
        assert(!st.nullifiers.contains(nf));
        assert(lookup_coin(st.coins, rec.coin) is None);
        lemma_lookup_coin_none(st.coins, rec.coin);
        assert forall|i: int, j: int|
            0 <= i < j < st2.nullifiers.len() implies st2.nullifiers[i] != st2.nullifiers[j] by {
            let n = st.nullifiers.len();
            if j >= n && i < n {
                assert(st2.nullifiers[j] == nf);
                if st2.nullifiers[i] == nf {
                    assert(st.nullifiers.contains(nf));
                }
            }
        }
        assert forall|i: int, j: int|
            0 <= i < j < st2.coins.len() implies (#[trigger] st2.coins[i]).coin != (
        #[trigger] st2.coins[j]).coin by {
            let n = st.coins.len();
            if j >= n && i < n {
                assert(st2.coins[j] == rec);
            }
        }
    }
}

/// Every namespace a call's metadata names is published for its
/// contract on any state carrying the native keys.
pub proof fn lemma_metadata_native(st: StateV, c: CallV)
    requires
        crate::state::native_vks_wf(st),
        call_metadata_spec(c) is Ok,
    ensures
        ({
            let zkps = call_metadata_spec(c)->Ok_0.0;
            forall|j: int|
                0 <= j < zkps.len() ==> crate::state::lookup_vk(
                    st.vks,
                    c.contract_id,
                    (#[trigger] zkps[j]).0,
                ) == Some(crate::crypto::spec_vk_of(c.contract_id, zkps[j].0))
        }),
{
    let zkps = call_metadata_spec(c)->Ok_0.0;
    if c.contract_id == MONEY_CONTRACT_ID {
        let p = call_body_transfer(c)->Some_0;
        assert forall|j: int|
            0 <= j < zkps.len() implies crate::state::lookup_vk(
            st.vks,
            c.contract_id,
            (#[trigger] zkps[j]).0,
        ) == Some(crate::crypto::spec_vk_of(c.contract_id, zkps[j].0)) by {
            if j < p.inputs.len() {
                assert(zkps[j].0 == NS_MONEY_BURN);
            } else {
                assert(zkps[j].0 == NS_MONEY_MINT);
            }
        }
    } else {
        assert forall|j: int|
            0 <= j < zkps.len() implies crate::state::lookup_vk(
            st.vks,
            c.contract_id,
            (#[trigger] zkps[j]).0,
        ) == Some(crate::crypto::spec_vk_of(c.contract_id, zkps[j].0)) by {
            assert(zkps[j].0 == NS_CONSENSUS_MINT || zkps[j].0 == NS_CONSENSUS_BURN);
        }
    }
}

// ---------------------------------------------------------------------
// The executable runtime
// ---------------------------------------------------------------------

/// A call's decoded body.
#[derive(Debug)]
pub enum CallBody {
    Transfer(TransferParams),
    GenesisStake(GenesisStakeParams),
    Proposal(ConsensusParams),
    UnstakeRequest(ConsensusParams),
    Unstake(ConsensusParams),
}

/// Decode a call's selector and parameters, refusing residual bytes.
fn parse_call(call: &ContractCall) -> (r: Result<CallBody, Error>)
    ensures
        match r {
            Ok(b) => match b {
                CallBody::Transfer(p) => call@.contract_id == MONEY_CONTRACT_ID
                    && call_body_transfer(call@) == Some(p@),
                CallBody::GenesisStake(p) => call@.contract_id == CONSENSUS_CONTRACT_ID
                    && call@.data.len() >= 1 && call@.data[0] == CONSENSUS_GENESIS_STAKE
                    && call_body_genesis(call@) == Some(p),
                CallBody::Proposal(p) => call@.contract_id == CONSENSUS_CONTRACT_ID
                    && call@.data.len() >= 1 && call@.data[0] == CONSENSUS_PROPOSAL
                    && call_body_consensus(call@, CONSENSUS_PROPOSAL) == Some(p),
                CallBody::UnstakeRequest(p) => call@.contract_id == CONSENSUS_CONTRACT_ID
                    && call@.data.len() >= 1 && call@.data[0] == CONSENSUS_UNSTAKE_REQUEST
                    && call_body_consensus(call@, CONSENSUS_UNSTAKE_REQUEST) == Some(p),
                CallBody::Unstake(p) => call@.contract_id == CONSENSUS_CONTRACT_ID
                    && call@.data.len() >= 1 && call@.data[0] == CONSENSUS_UNSTAKE
                    && call_body_consensus(call@, CONSENSUS_UNSTAKE) == Some(p),
            },
            Err(e) => {
                &&& e == Error::MalformedEncoding
                &&& call_metadata_spec(call@) == Err::<(Seq<(u64, Seq<u64>)>, Seq<u64>), Error>(
                    Error::MalformedEncoding,
                )
                &&& forall|st: StateV, slot: u64|
                    #[trigger] call_exec_spec(st, call@, slot) == Err::<UpdateV, Error>(
                        Error::MalformedEncoding,
                    )
            },
        },
{
    let id = call.contract_id;
    if call.data.len() == 0 {
        return Err(Error::MalformedEncoding);
    }
    let sel = call.data[0];
    proof {
        assert(call@.data[0] == sel);
    }
    if id == MONEY_CONTRACT_ID && (sel == MONEY_TRANSFER || sel == MONEY_OTC_SWAP) {
        match decode_transfer_params(&call.data, 1) {
            Ok((p, end)) => {
                proof {
                    assert(call@.data.skip(1) =~= call.data@.skip(1));
                }
                if end == call.data.len() {
                    proof {
                        assert(call_body_transfer(call@) == Some(p@));
                    }
                    Ok(CallBody::Transfer(p))
                } else {
                    Err(Error::MalformedEncoding)
                }
            },
            Err(_) => Err(Error::MalformedEncoding),
        }
    } else if id == CONSENSUS_CONTRACT_ID && sel == CONSENSUS_GENESIS_STAKE {
        match decode_genesis_params(&call.data, 1) {
            Ok((p, end)) => {
                proof {
                    assert(call@.data.skip(1) =~= call.data@.skip(1));
                }
                if end == call.data.len() {
                    Ok(CallBody::GenesisStake(p))
                } else {
                    Err(Error::MalformedEncoding)
                }
            },
            Err(_) => Err(Error::MalformedEncoding),
        }
    } else if id == CONSENSUS_CONTRACT_ID && (sel == CONSENSUS_PROPOSAL || sel
        == CONSENSUS_UNSTAKE_REQUEST || sel == CONSENSUS_UNSTAKE) {
        match decode_consensus_params(&call.data, 1) {
            Ok((p, end)) => {
                proof {
                    assert(call@.data.skip(1) =~= call.data@.skip(1));
                }
                if end == call.data.len() {
                    if sel == CONSENSUS_PROPOSAL {
                        Ok(CallBody::Proposal(p))
                    } else if sel == CONSENSUS_UNSTAKE_REQUEST {
                        Ok(CallBody::UnstakeRequest(p))
                    } else {
                        Ok(CallBody::Unstake(p))
                    }
                } else {
                    Err(Error::MalformedEncoding)
                }
            },
            Err(_) => Err(Error::MalformedEncoding),
        }
    } else {
        Err(Error::MalformedEncoding)
    }
}

/// View of an executable metadata table.
pub open spec fn zk_table_view(v: Seq<(u64, Vec<u64>)>) -> Seq<(u64, Seq<u64>)> {
    v.map_values(|e: (u64, Vec<u64>)| (e.0, e.1@))
}

/// The proofs and signing keys a call demands.
pub fn call_metadata(call: &ContractCall) -> (r: Result<(Vec<(u64, Vec<u64>)>, Vec<u64>), Error>)
    ensures
        match r {
            Ok(t) => call_metadata_spec(call@) == Ok::<_, Error>(
                (zk_table_view(t.0@), t.1@),
            ),
            Err(e) => call_metadata_spec(call@) == Err::<(Seq<(u64, Seq<u64>)>, Seq<u64>), Error>(
                e,
            ),
        },
{
    let body = match parse_call(call) {
        Ok(b) => b,
        Err(e) => {
            return Err(e);
        },
    };
    match body {
        CallBody::Transfer(p) => {
            let mut zk: Vec<(u64, Vec<u64>)> = Vec::new();
            let mut i: usize = 0;
            while i < p.inputs.len()
                invariant
                    i <= p.inputs@.len(),
                    zk@.len() == i,
                    forall|k: int|
                        0 <= k < i ==> (#[trigger] zk@[k]).0 == NS_MONEY_BURN && zk@[k].1@
                            =~= seq![
                            p.inputs@[k].nullifier,
                            p.inputs@[k].coin,
                            p.inputs@[k].sig_public,
                        ],
                decreases p.inputs@.len() - i,
            {
                let inp = p.inputs[i];
                let mut pubs: Vec<u64> = Vec::new();
                pubs.push(inp.nullifier);
                pubs.push(inp.coin);
                pubs.push(inp.sig_public);
                proof {
                    assert(pubs@ =~= seq![inp.nullifier, inp.coin, inp.sig_public]);
                }
                zk.push((NS_MONEY_BURN, pubs));
                i = i + 1;
            }
            let ghost n_in = p.inputs@.len() as int;
            let mut j: usize = 0;
            while j < p.outputs.len()
                invariant
                    j <= p.outputs@.len(),
                    n_in == p.inputs@.len() as int,
                    zk@.len() == n_in + j,
                    forall|k: int|
                        0 <= k < n_in ==> (#[trigger] zk@[k]).0 == NS_MONEY_BURN && zk@[k].1@
                            =~= seq![
                            p.inputs@[k].nullifier,
                            p.inputs@[k].coin,
                            p.inputs@[k].sig_public,
                        ],
                    forall|k: int|
                        n_in <= k < n_in + j ==> (#[trigger] zk@[k]).0 == NS_MONEY_MINT
                            && zk@[k].1@ =~= seq![
                            p.outputs@[k - n_in].coin,
                            p.outputs@[k - n_in].value,
                            p.outputs@[k - n_in].pubkey,
                        ],
                decreases p.outputs@.len() - j,
            {
                let o = p.outputs[j];
                let mut pubs: Vec<u64> = Vec::new();
                pubs.push(o.coin);
                pubs.push(o.value);
                pubs.push(o.pubkey);
                proof {
                    assert(pubs@ =~= seq![o.coin, o.value, o.pubkey]);
                }
                zk.push((NS_MONEY_MINT, pubs));
                j = j + 1;
            }
            let mut sigs: Vec<u64> = Vec::new();
            let mut k: usize = 0;
            while k < p.inputs.len()
                invariant
                    k <= p.inputs@.len(),
                    sigs@.len() == k,
                    forall|m: int| 0 <= m < k ==> sigs@[m] == p.inputs@[m].sig_public,
                decreases p.inputs@.len() - k,
            {
                sigs.push(p.inputs[k].sig_public);
                k = k + 1;
            }
            proof {
                assert(zk_table_view(zk@) =~~= transfer_zkps(p@));
                assert(sigs@ =~= transfer_sigs(p@));
            }
            Ok((zk, sigs))
        },
        CallBody::GenesisStake(p) => {
            let mut pubs: Vec<u64> = Vec::new();
            pubs.push(p.nullifier);
            pubs.push(p.output.coin);
            pubs.push(p.output.value);
            pubs.push(p.output.pubkey);
            let mut zk: Vec<(u64, Vec<u64>)> = Vec::new();
            zk.push((NS_CONSENSUS_MINT, pubs));
            let mut sigs: Vec<u64> = Vec::new();
            sigs.push(p.sig_public);
            proof {
                assert(zk_table_view(zk@) =~~= genesis_zkps(p));
                assert(sigs@ =~= seq![p.sig_public]);
            }
            Ok((zk, sigs))
        },
        CallBody::Proposal(p) | CallBody::UnstakeRequest(p) | CallBody::Unstake(p) => {
            let mut burn: Vec<u64> = Vec::new();
            burn.push(p.input.nullifier);
            burn.push(p.input.coin);
            burn.push(p.input.sig_public);
            let mut mint: Vec<u64> = Vec::new();
            mint.push(p.output.coin);
            mint.push(p.output.value);
            mint.push(p.output.pubkey);
            let mut zk: Vec<(u64, Vec<u64>)> = Vec::new();
            zk.push((NS_CONSENSUS_BURN, burn));
            zk.push((NS_CONSENSUS_MINT, mint));
            let mut sigs: Vec<u64> = Vec::new();
            sigs.push(p.input.sig_public);
            proof {
                assert(zk_table_view(zk@) =~~= transition_zkps(p));
                assert(sigs@ =~= seq![p.input.sig_public]);
            }
            Ok((zk, sigs))
        },
    }
}

/// Run a call's rules against the state, producing its update.
pub fn call_exec(state: &ValidatorState, call: &ContractCall, slot: u64) -> (r: Result<
    StateUpdate,
    Error,
>)
    ensures
        match r {
            Ok(u) => call_exec_spec(state@, call@, slot) == Ok::<UpdateV, Error>(u@),
            Err(e) => call_exec_spec(state@, call@, slot) == Err::<UpdateV, Error>(e),
        },
{
    let body = match parse_call(call) {
        Ok(b) => b,
        Err(e) => {
            return Err(e);
        },
    };
    match body {
        CallBody::Transfer(p) => {
            let ghost pv = p@;
            if p.inputs.len() == 0 {
                return Err(Error::MalformedEncoding);
            }
            let mut nfs: Vec<u64> = Vec::new();
            let mut total_in: u128 = 0;
            let mut i: usize = 0;
            while i < p.inputs.len()
                invariant
                    i <= p.inputs@.len(),
                    p@ == pv,
                    call@.contract_id == MONEY_CONTRACT_ID,
                    call_body_transfer(call@) == Some(pv),
                    pv.inputs.len() > 0,
                    transfer_inputs_spec(state@, pv.inputs, i as int) == Ok::<_, Error>(
                        (nfs@, total_in as int),
                    ),
                    total_in as int <= (i as int) * (u64::MAX as int),
                decreases p.inputs@.len() - i,
            {
                let inp = p.inputs[i];
                let rec = match find_coin(state, inp.coin) {
                    Some(rec) => rec,
                    None => {
                        proof {
                            lemma_inputs_err_mono(state@, pv.inputs, i + 1,
                                pv.inputs.len() as int);
                        }
                        return Err(Error::CommitmentMismatch);
                    },
                };
                if !(matches!(rec.kind, CoinKind::Money)) {
                    proof {
                        lemma_inputs_err_mono(state@, pv.inputs, i + 1, pv.inputs.len() as int);
                    }
                    return Err(Error::CommitmentMismatch);
                }
                if has_nullifier(state, inp.nullifier) || contains_u64(&nfs, inp.nullifier) {
                    proof {
                        lemma_inputs_err_mono(state@, pv.inputs, i + 1, pv.inputs.len() as int);
                    }
                    return Err(Error::DoubleSpend);
                }
                nfs.push(inp.nullifier);
                total_in = total_in + (rec.value as u128);
                i = i + 1;
            }
            let mut recs: Vec<CoinRecord> = Vec::new();
            let mut total_out: u128 = 0;
            let mut j: usize = 0;
            while j < p.outputs.len()
                invariant
                    j <= p.outputs@.len(),
                    p@ == pv,
                    call@.contract_id == MONEY_CONTRACT_ID,
                    call_body_transfer(call@) == Some(pv),
                    pv.inputs.len() > 0,
                    transfer_inputs_spec(state@, pv.inputs, pv.inputs.len() as int) is Ok,
                    transfer_outputs_spec(state@, pv.outputs, j as int, slot) == Ok::<_, Error>(
                        (recs@, total_out as int),
                    ),
                    total_out as int <= (j as int) * (u64::MAX as int),
                decreases p.outputs@.len() - j,
            {
                let o = p.outputs[j];
                let seen = match find_coin(state, o.coin) {
                    Some(_) => true,
                    None => records_contain(&recs, o.coin),
                };
                if seen {
                    proof {
                        lemma_outputs_err_mono(state@, pv.outputs, j + 1,
                            pv.outputs.len() as int, slot);
                    }
                    return Err(Error::CommitmentMismatch);
                }
                recs.push(
                    CoinRecord {
                        coin: o.coin,
                        value: o.value,
                        pubkey: o.pubkey,
                        kind: CoinKind::Money,
                        since_slot: slot,
                    },
                );
                total_out = total_out + (o.value as u128);
                j = j + 1;
            }
            if total_in != total_out {
                return Err(Error::CommitmentMismatch);
            }
            let u = StateUpdate { nullifiers: nfs, coins: recs };
            proof {
                assert(call_exec_spec(state@, call@, slot) == Ok::<UpdateV, Error>(u@));
            }
            Ok(u)
        },
        CallBody::GenesisStake(p) => {
            if slot != 0 {
                return Err(Error::NotGenesisSlot);
            }
            if has_nullifier(state, p.nullifier) {
                return Err(Error::DoubleSpend);
            }
            match find_coin(state, p.output.coin) {
                Some(_) => Err(Error::DuplicateStake),
                None => {
                    let mut nfs: Vec<u64> = Vec::new();
                    nfs.push(p.nullifier);
                    let mut recs: Vec<CoinRecord> = Vec::new();
                    recs.push(
                        CoinRecord {
                            coin: p.output.coin,
                            value: p.output.value,
                            pubkey: p.output.pubkey,
                            kind: CoinKind::Staked,
                            since_slot: 0,
                        },
                    );
                    let u = StateUpdate { nullifiers: nfs, coins: recs };
                    proof {
                        assert(u@.nullifiers =~= seq![p.nullifier]);
                        assert(u@.coins =~= genesis_stake_exec_spec(state@, p, slot)
                            ->Ok_0.coins);
                        assert(call_exec_spec(state@, call@, slot) == Ok::<UpdateV, Error>(u@));
                    }
                    Ok(u)
                },
            }
        },
        CallBody::Proposal(p) => {
            let rec = match find_coin(state, p.input.coin) {
                Some(rec) => rec,
                None => {
                    return Err(Error::CommitmentMismatch);
                },
            };
            if !(matches!(rec.kind, CoinKind::Staked)) {
                return Err(Error::CommitmentMismatch);
            }
            if has_nullifier(state, p.input.nullifier) {
                return Err(Error::DoubleSpend);
            }
            if rec.value > u64::MAX - REWARD || rec.value + REWARD != p.output.value {
                return Err(Error::CommitmentMismatch);
            }
            match find_coin(state, p.output.coin) {
                Some(_) => Err(Error::DuplicateStake),
                None => {
                    let mut nfs: Vec<u64> = Vec::new();
                    nfs.push(p.input.nullifier);
                    let mut recs: Vec<CoinRecord> = Vec::new();
                    recs.push(
                        CoinRecord {
                            coin: p.output.coin,
                            value: p.output.value,
                            pubkey: p.output.pubkey,
                            kind: CoinKind::Staked,
                            since_slot: slot,
                        },
                    );
                    let u = StateUpdate { nullifiers: nfs, coins: recs };
                    proof {
                        assert(u@.nullifiers =~= seq![p.input.nullifier]);
                        assert(u@.coins =~= proposal_exec_spec(state@, p, slot)->Ok_0.coins);
                        assert(call_exec_spec(state@, call@, slot) == Ok::<UpdateV, Error>(u@));
                    }
                    Ok(u)
                },
            }
        },
        CallBody::UnstakeRequest(p) => {
            let rec = match find_coin(state, p.input.coin) {
                Some(rec) => rec,
                None => {
                    return Err(Error::CommitmentMismatch);
                },
            };
            if !(matches!(rec.kind, CoinKind::Staked)) {
                return Err(Error::CommitmentMismatch);
            }
            if rec.since_slot > u64::MAX - (GRACE_PERIOD * EPOCH_LENGTH) || slot
                < rec.since_slot + (GRACE_PERIOD * EPOCH_LENGTH) {
                return Err(Error::BeforeGracePeriod);
            }
            if has_nullifier(state, p.input.nullifier) {
                return Err(Error::DoubleSpend);
            }
            if rec.value != p.output.value {
                return Err(Error::CommitmentMismatch);
            }
            match find_coin(state, p.output.coin) {
                Some(_) => Err(Error::DuplicateStake),
                None => {
                    let mut nfs: Vec<u64> = Vec::new();
                    nfs.push(p.input.nullifier);
                    let mut recs: Vec<CoinRecord> = Vec::new();
                    recs.push(
                        CoinRecord {
                            coin: p.output.coin,
                            value: p.output.value,
                            pubkey: p.output.pubkey,
                            kind: CoinKind::UnstakeRequested,
                            since_slot: slot,
                        },
                    );
                    let u = StateUpdate { nullifiers: nfs, coins: recs };
                    proof {
                        assert(u@.nullifiers =~= seq![p.input.nullifier]);
                        assert(u@.coins =~= unstake_request_exec_spec(state@, p, slot)
                            ->Ok_0.coins);
                        assert(call_exec_spec(state@, call@, slot) == Ok::<UpdateV, Error>(u@));
                    }
                    Ok(u)
                },
            }
        },
        CallBody::Unstake(p) => {
            let rec = match find_coin(state, p.input.coin) {
                Some(rec) => rec,
                None => {
                    return Err(Error::CommitmentMismatch);
                },
            };
            if !(matches!(rec.kind, CoinKind::UnstakeRequested)) {
                return Err(Error::CommitmentMismatch);
            }
            if rec.since_slot > u64::MAX - (GRACE_PERIOD * EPOCH_LENGTH + EPOCH_LENGTH) || slot
                < rec.since_slot + (GRACE_PERIOD * EPOCH_LENGTH + EPOCH_LENGTH) {
                return Err(Error::BeforeGracePeriod);
            }
            if has_nullifier(state, p.input.nullifier) {
                return Err(Error::DoubleSpend);
            }
            if rec.value != p.output.value {
                return Err(Error::CommitmentMismatch);
            }
            match find_coin(state, p.output.coin) {
                Some(_) => Err(Error::DuplicateStake),
                None => {
                    let mut nfs: Vec<u64> = Vec::new();
                    nfs.push(p.input.nullifier);
                    let mut recs: Vec<CoinRecord> = Vec::new();
                    recs.push(
                        CoinRecord {
                            coin: p.output.coin,
                            value: p.output.value,
                            pubkey: p.output.pubkey,
                            kind: CoinKind::Money,
                            since_slot: slot,
                        },
                    );
                    let u = StateUpdate { nullifiers: nfs, coins: recs };
                    proof {
                        assert(u@.nullifiers =~= seq![p.input.nullifier]);
                        assert(u@.coins =~= unstake_exec_spec(state@, p, slot)->Ok_0.coins);
                        assert(call_exec_spec(state@, call@, slot) == Ok::<UpdateV, Error>(u@));
                    }
                    Ok(u)
                },
            }
        },
    }
}

/// Write a call's update into the overlay state.  Given an update
/// produced by `call_exec` this cannot fail; the fatal class of apply
/// failures is discharged by proof.
pub fn call_apply(state: &mut ValidatorState, update: &StateUpdate)
    ensures
        final(state)@ == apply_update_spec(old(state)@, update@),
{
    let mut i: usize = 0;
    while i < update.nullifiers.len()
        invariant
            i <= update.nullifiers@.len(),
            state@.nullifiers == old(state)@.nullifiers + update.nullifiers@.take(i as int),
            state@.coins == old(state)@.coins,
            state@.vks == old(state)@.vks,
        decreases update.nullifiers@.len() - i,
    {
        state.nullifiers.push(update.nullifiers[i]);
        proof {
            assert(state@.nullifiers =~= old(state)@.nullifiers + update.nullifiers@.take(
                i + 1,
            ));
        }
        i = i + 1;
    }
    let mut j: usize = 0;
    while j < update.coins.len()
        invariant
            j <= update.coins@.len(),
            state@.nullifiers == old(state)@.nullifiers + update.nullifiers@.take(
                update.nullifiers@.len() as int,
            ),
            state@.coins == old(state)@.coins + update.coins@.take(j as int),
            state@.vks == old(state)@.vks,
        decreases update.coins@.len() - j,
    {
        state.coins.push(update.coins[j]);
        proof {
            assert(state@.coins =~= old(state)@.coins + update.coins@.take(j + 1));
        }
        j = j + 1;
    }
    proof {
        assert(update.nullifiers@.take(update.nullifiers@.len() as int) =~= update.nullifiers@);
        assert(update.coins@.take(update.coins@.len() as int) =~= update.coins@);
        assert(state@ =~~= apply_update_spec(old(state)@, update@));
    }
}

// ---------------------------------------------------------------------
// The runtime object
// ---------------------------------------------------------------------

/// The framed payload handed to a contract: the index of the call
/// being run, then the whole call list, so a contract can
/// cross-reference its sibling calls.
pub open spec fn dec_payload(s: Seq<u8>) -> Option<(u64, Seq<CallV>)> {
    match dec_u32(s) {
        None => None,
        Some((idx, _)) => match dec_call_list(s.skip(4)) {
            None => None,
            Some((calls, k)) => {
                if 4 + k == s.len() {
                    Some((idx as u64, calls))
                } else {
                    None
                }
            },
        },
    }
}

/// What `metadata` returns for a framed payload.
pub open spec fn runtime_metadata_spec(s: Seq<u8>) -> Result<
    (Seq<(u64, Seq<u64>)>, Seq<u64>),
    Error,
> {
    match dec_payload(s) {
        None => Err(Error::MalformedEncoding),
        Some((idx, calls)) => {
            if idx < calls.len() {
                call_metadata_spec(calls[idx as int])
            } else {
                Err(Error::MalformedEncoding)
            }
        },
    }
}

/// What `exec` returns for a framed payload.
pub open spec fn runtime_exec_spec(st: StateV, s: Seq<u8>, slot: u64) -> Result<UpdateV, Error> {
    match dec_payload(s) {
        None => Err(Error::MalformedEncoding),
        Some((idx, calls)) => {
            if idx < calls.len() {
                call_exec_spec(st, calls[idx as int], slot)
            } else {
                Err(Error::MalformedEncoding)
            }
        },
    }
}

/// One instantiated contract run: the contract being called and the
/// slot being verified.
#[derive(Clone, Copy, Debug)]
pub struct Runtime {
    pub contract_id: u64,
    pub time_keeper: TimeKeeper,
}

impl Runtime {
    /// Instantiate the native runtime for one call.
    pub fn new(contract_id: u64, time_keeper: TimeKeeper) -> (r: Runtime)
        ensures
            r.contract_id == contract_id,
            r.time_keeper == time_keeper,
    {
        Runtime { contract_id, time_keeper }
    }

    /// Decode the framed payload and return the named call.
    fn payload_call(payload: &Vec<u8>) -> (r: Result<(Vec<ContractCall>, usize), Error>)
        ensures
            match r {
                Ok(p) => {
                    &&& dec_payload(payload@) matches Some(d) && d.1
                        == crate::types::calls_view(p.0@) && d.0 == p.1 as u64
                    &&& p.1 < p.0@.len()
                },
                Err(e) => {
                    &&& e == Error::MalformedEncoding
                    &&& (match dec_payload(payload@) {
                        Some(d) => d.0 >= d.1.len(),
                        None => true,
                    })
                },
            },
    {
        let (idx, p1) = match decode_u32(payload, 0) {
            Ok(p) => p,
            Err(e) => {
                return Err(e);
            },
        };
        proof {
            assert(payload@.skip(0) =~= payload@);
        }
        let (calls, p2) = match decode_call_list(payload, p1) {
            Ok(p) => p,
            Err(e) => {
                proof {
                    assert(payload@.skip(p1 as int) =~= payload@.skip(4));
                }
                return Err(e);
            },
        };
        proof {
            assert(payload@.skip(p1 as int) =~= payload@.skip(4));
        }
        if p2 != payload.len() {
            return Err(Error::MalformedEncoding);
        }
        if (idx as u64) < calls.len() as u64 {
            let i = idx as usize;
            Ok((calls, i))
        } else {
            Err(Error::MalformedEncoding)
        }
    }

    /// The proofs and signing keys the named call demands.  Reads no
    /// state: native metadata is a function of the parameters alone.
    pub fn metadata(&self, payload: &Vec<u8>) -> (r: Result<
        (Vec<(u64, Vec<u64>)>, Vec<u64>),
        Error,
    >)
        ensures
            match r {
                Ok(t) => runtime_metadata_spec(payload@) == Ok::<_, Error>(
                    (zk_table_view(t.0@), t.1@),
                ),
                Err(e) => runtime_metadata_spec(payload@) == Err::<
                    (Seq<(u64, Seq<u64>)>, Seq<u64>),
                    Error,
                >(e),
            },
    {
        let (calls, idx) = match Self::payload_call(payload) {
            Ok(p) => p,
            Err(e) => {
                return Err(e);
            },
        };
        proof {
            assert(crate::types::calls_view(calls@)[idx as int] == calls@[idx as int]@);
        }
        call_metadata(&calls[idx])
    }

    /// Run the named call's rules against the overlay state.
    pub fn exec(&self, state: &ValidatorState, payload: &Vec<u8>) -> (r: Result<
        StateUpdate,
        Error,
    >)
        ensures
            match r {
                Ok(u) => runtime_exec_spec(state@, payload@, self.time_keeper.verifying_slot)
                    == Ok::<UpdateV, Error>(u@),
                Err(e) => runtime_exec_spec(state@, payload@, self.time_keeper.verifying_slot)
                    == Err::<UpdateV, Error>(e),
            },
    {
        let (calls, idx) = match Self::payload_call(payload) {
            Ok(p) => p,
            Err(e) => {
                return Err(e);
            },
        };
        proof {
            assert(crate::types::calls_view(calls@)[idx as int] == calls@[idx as int]@);
        }
        call_exec(state, &calls[idx], self.time_keeper.verifying_slot)
    }

    /// Write an accepted update into the overlay state.
    pub fn apply(&self, state: &mut ValidatorState, update: &StateUpdate)
        ensures
            final(state)@ == apply_update_spec(old(state)@, update@),
    {
        call_apply(state, update);
    }
}

/// A call whose metadata does not decode does not execute either.
pub proof fn lemma_metadata_err_exec(c: CallV, st: StateV, slot: u64)
    requires
        call_metadata_spec(c) is Err,
    ensures
        call_exec_spec(st, c, slot) == Err::<UpdateV, Error>(Error::MalformedEncoding),
{
}

} // verus!
