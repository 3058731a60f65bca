//! Deterministic value relations standing in for the engine's
//! cryptographic collaborators.
//!
//! The engine never computes curve arithmetic itself: commitments,
//! nullifiers, verifying keys, signatures and proof tags are bound to
//! their preimages by one deterministic fold over machine integers.
//! What the engine *proves* — encoding round trips, state transitions,
//! overlay atomicity, timing rules — does not depend on the strength of
//! this fold, only on its determinism.

use vstd::prelude::*;
use vstd::bytes::*;

verus! {

/// Modulus of the fold; keeps every accumulator below `2^32` so the
/// executable fold never overflows a `u64`.
pub const FOLD_MODULUS: u64 = 0xffff_fffb;

/// Seed of every fold.
pub const FOLD_SEED: u64 = 17;

/// One fold step: absorb `x` into the accumulator.
pub open spec fn fold_step(acc: int, x: int) -> int {
    (acc * 33 + (x % (FOLD_MODULUS as int))) % (FOLD_MODULUS as int)
}

/// Fold over a byte sequence, left to right.
pub open spec fn fold_bytes(s: Seq<u8>) -> int
    decreases s.len(),
{
    if s.len() == 0 {
        FOLD_SEED as int
    } else {
        fold_step(fold_bytes(s.drop_last()), s.last() as int)
    }
}

pub proof fn lemma_fold_bytes_range(s: Seq<u8>)
    ensures
        0 <= fold_bytes(s) < FOLD_MODULUS as int,
    decreases s.len(),
{
    if s.len() > 0 {
        lemma_fold_bytes_range(s.drop_last());
    }
}

/// Digest of a byte sequence.
pub open spec fn digest_of(s: Seq<u8>) -> u64 {
    fold_bytes(s) as u64
}

/// Absorb two machine words, starting from the seed.
pub open spec fn spec_mix(a: u64, b: u64) -> u64 {
    fold_step(fold_step(FOLD_SEED as int, a as int), b as int) as u64
}

/// Digest a byte sequence with the executable fold.
pub fn digest_bytes(data: &Vec<u8>) -> (h: u64)
    ensures
        h == digest_of(data@),
        h < FOLD_MODULUS,
{
    let mut acc: u64 = FOLD_SEED;
    let mut i: usize = 0;
    proof {
        assert(data@.take(0) =~= Seq::<u8>::empty());
    }
    while i < data.len()
        invariant
            i <= data@.len(),
            acc == fold_bytes(data@.take(i as int)),
            0 <= acc < FOLD_MODULUS,
        decreases data@.len() - i,
    {
        let b = data[i];
        proof {
            assert(data@.take(i + 1).drop_last() =~= data@.take(i as int));
            assert(data@.take(i + 1).last() == b);
        }
        acc = (acc * 33 + (b as u64) % FOLD_MODULUS) % FOLD_MODULUS;
        i = i + 1;
    }
    proof {
        assert(data@.take(data@.len() as int) =~= data@);
        lemma_fold_bytes_range(data@);
    }
    acc
}

/// Mix two machine words with the executable fold.
pub fn mix(a: u64, b: u64) -> (r: u64)
    ensures
        r == spec_mix(a, b),
        r < FOLD_MODULUS,
{
    let first = (FOLD_SEED * 33 + a % FOLD_MODULUS) % FOLD_MODULUS;
    (first * 33 + b % FOLD_MODULUS) % FOLD_MODULUS
}

/// The public key derived from a secret key.
pub open spec fn spec_public_key_of(secret: u64) -> u64 {
    spec_mix(secret, 2)
}

/// Derive the public key for a secret key.
pub fn public_key_of(secret: u64) -> (pk: u64)
    ensures
        pk == spec_public_key_of(secret),
{
    mix(secret, 2)
}

/// The tag a valid signature over `message` by the holder of
/// `public_key` must carry.
pub open spec fn spec_sig_tag(public_key: u64, message: u64) -> u64 {
    spec_mix(public_key, message)
}

/// Sign a message: the signer derives the public key and computes the
/// tag the verifier will demand.
pub fn sign(secret: u64, message: u64) -> (tag: u64)
    ensures
        tag == spec_sig_tag(spec_public_key_of(secret), message),
{
    let pk = public_key_of(secret);
    mix(pk, message)
}

/// The tag a valid proof must carry: the verifying key folded with
/// every public input in order.
pub open spec fn spec_proof_tag(vk: u64, inputs: Seq<u64>) -> u64
    decreases inputs.len(),
{
    if inputs.len() == 0 {
        vk
    } else {
        spec_mix(spec_proof_tag(vk, inputs.drop_last()), inputs.last())
    }
}

/// Fold the public inputs into the verifying key.
pub fn proof_tag(vk: u64, inputs: &Vec<u64>) -> (tag: u64)
    ensures
        tag == spec_proof_tag(vk, inputs@),
{
    let mut acc = vk;
    let mut i: usize = 0;
    proof {
        assert(inputs@.take(0) =~= Seq::<u64>::empty());
    }
    while i < inputs.len()
        invariant
            i <= inputs@.len(),
            acc == spec_proof_tag(vk, inputs@.take(i as int)),
        decreases inputs@.len() - i,
    {
        proof {
            assert(inputs@.take(i + 1).drop_last() =~= inputs@.take(i as int));
            assert(inputs@.take(i + 1).last() == inputs@[i as int]);
        }
        acc = mix(acc, inputs[i]);
        i = i + 1;
    }
    proof {
        assert(inputs@.take(inputs@.len() as int) =~= inputs@);
    }
    acc
}

/// The verifying key published for a contract's proof namespace.
pub open spec fn spec_vk_of(contract_id: u64, namespace: u64) -> u64 {
    spec_mix(contract_id, namespace)
}

/// Derive the verifying key of a contract's namespace.
pub fn vk_of(contract_id: u64, namespace: u64) -> (vk: u64)
    ensures
        vk == spec_vk_of(contract_id, namespace),
{
    mix(contract_id, namespace)
}

/// A coin commitment: binds owner, value, token and serial.
pub open spec fn spec_coin_commit(pubkey: u64, value: u64, token: u64, serial: u64) -> u64 {
    spec_mix(spec_mix(spec_mix(pubkey, value), token), serial)
}

/// Commit to a coin's contents.
pub fn coin_commit(pubkey: u64, value: u64, token: u64, serial: u64) -> (c: u64)
    ensures
        c == spec_coin_commit(pubkey, value, token, serial),
{
    let a = mix(pubkey, value);
    let b = mix(a, token);
    mix(b, serial)
}

/// A blinded commitment to a single value.
pub open spec fn spec_value_commit(value: u64, blind: u64) -> u64 {
    spec_mix(spec_mix(3, value), blind)
}

/// Commit to a value under a blind.
pub fn value_commit(value: u64, blind: u64) -> (c: u64)
    ensures
        c == spec_value_commit(value, blind),
{
    let a = mix(3, value);
    mix(a, blind)
}

/// A blinded commitment to a token identifier.
pub open spec fn spec_token_commit(token: u64, blind: u64) -> u64 {
    spec_mix(spec_mix(5, token), blind)
}

/// Commit to a token identifier under a blind.
pub fn token_commit(token: u64, blind: u64) -> (c: u64)
    ensures
        c == spec_token_commit(token, blind),
{
    let a = mix(5, token);
    mix(a, blind)
}

/// Bytes of the node obtained by combining two child nodes: the digest
/// of both children, each framed as a length-prefixed byte string.
pub open spec fn spec_combine_nodes(a: Seq<u8>, b: Seq<u8>) -> Seq<u8> {
    spec_u64_to_le_bytes(digest_of(crate::serial::enc_bytes(a) + crate::serial::enc_bytes(b)))
}

} // verus!
