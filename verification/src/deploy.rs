//! Parameters and state updates of the native deployment contract.
//!
//! A deployment publishes a contract's bytecode under an identifier
//! derived from the deploying key; a lock freezes further
//! redeployments.  The engine treats these as data: they encode with
//! the wire encoding and round-trip exactly.

use vstd::prelude::*;

use crate::crypto::spec_mix;
use crate::error::Error;
use crate::serial::{
    dec_bytes, dec_u64, enc_bytes, enc_u64, encode_bytes, encode_u64, decode_bytes, decode_u64,
    lemma_dec_enc_bytes, lemma_dec_enc_u64,
};

verus! {

/// Parameters of a deployment: the contract's bytecode and the key it
/// is published under.
#[derive(Debug)]
pub struct DeployParamsV1 {
    pub wasm_bincode: Vec<u8>,
    pub public_key: u64,
}

/// The state update of a deployment: the derived contract identifier.
#[derive(Clone, Copy, Debug, PartialEq, Eq, Structural)]
pub struct DeployUpdateV1 {
    pub contract_id: u64,
}

/// Parameters of a lock: the key whose contract is frozen.
#[derive(Clone, Copy, Debug, PartialEq, Eq, Structural)]
pub struct LockParamsV1 {
    pub public_key: u64,
}

/// The state update of a lock: the frozen contract identifier.
#[derive(Clone, Copy, Debug, PartialEq, Eq, Structural)]
pub struct LockUpdateV1 {
    pub contract_id: u64,
}

#[verifier::ext_equal]
pub ghost struct DeployParamsV {
    pub wasm_bincode: Seq<u8>,
    pub public_key: u64,
}

impl View for DeployParamsV1 {
    type V = DeployParamsV;

    open spec fn view(&self) -> DeployParamsV {
        DeployParamsV { wasm_bincode: self.wasm_bincode@, public_key: self.public_key }
    }
}

/// The contract identifier a deploying key publishes under.
pub open spec fn spec_derive_contract_id(public_key: u64) -> u64 {
    spec_mix(public_key, 13)
}

/// Derive the contract identifier for a deploying key.
pub fn derive_contract_id(public_key: u64) -> (r: u64)
    ensures
        r == spec_derive_contract_id(public_key),
{
    crate::crypto::mix(public_key, 13)
}

pub open spec fn enc_deploy_params(p: DeployParamsV) -> Seq<u8> {
    enc_bytes(p.wasm_bincode) + enc_u64(p.public_key)
}

pub open spec fn dec_deploy_params(s: Seq<u8>) -> Option<(DeployParamsV, int)> {
    match dec_bytes(s) {
        None => None,
        Some((wasm_bincode, k1)) => match dec_u64(s.skip(k1)) {
            None => None,
            Some((public_key, k2)) => Some(
                (DeployParamsV { wasm_bincode, public_key }, k1 + k2),
            ),
        },
    }
}

pub proof fn lemma_dec_enc_deploy_params(p: DeployParamsV, rest: Seq<u8>)
    requires
        p.wasm_bincode.len() <= u64::MAX,
    ensures
        dec_deploy_params(enc_deploy_params(p) + rest) == Some(
            (p, enc_deploy_params(p).len() as int),
        ),
{
    let s = enc_deploy_params(p) + rest;
    lemma_dec_enc_bytes(p.wasm_bincode, enc_u64(p.public_key) + rest);
    assert(s =~= enc_bytes(p.wasm_bincode) + (enc_u64(p.public_key) + rest));
    lemma_dec_enc_u64(p.public_key, rest);
    assert(s.skip(enc_bytes(p.wasm_bincode).len() as int) =~= enc_u64(p.public_key) + rest);
}

impl DeployParamsV1 {
    /// Encode as the bytecode then the deploying key.
    pub fn encode(&self, out: &mut Vec<u8>) -> (n: usize)
        ensures
            final(out)@ == old(out)@ + enc_deploy_params(self@),
            n == enc_deploy_params(self@).len(),
    {
        let before = out.len();
        encode_bytes(&self.wasm_bincode, out);
        encode_u64(self.public_key, out);
        proof {
            assert(out@ =~= old(out)@ + enc_deploy_params(self@));
        }
        out.len() - before
    }

    /// Decode deployment parameters.
    pub fn decode(data: &Vec<u8>, pos: usize) -> (r: Result<(DeployParamsV1, usize), Error>)
        requires
            pos <= data@.len(),
        ensures
            match r {
                Ok(p) => {
                    &&& dec_deploy_params(data@.skip(pos as int)) == Some((p.0@, p.1 - pos))
                    &&& pos <= p.1 <= data@.len()
                },
                Err(e) => dec_deploy_params(data@.skip(pos as int)) is None && e
                    == Error::MalformedEncoding,
            },
    {
        let ghost s = data@.skip(pos as int);
        let (wasm_bincode, p1) = match decode_bytes(data, pos) {
            Ok(p) => p,
            Err(e) => {
                return Err(e);
            },
        };
        proof {
            assert(data@.skip(p1 as int) =~= s.skip(p1 - pos));
        }
        let (public_key, p2) = match decode_u64(data, p1) {
            Ok(p) => p,
            Err(e) => {
                return Err(e);
            },
        };
        Ok((DeployParamsV1 { wasm_bincode, public_key }, p2))
    }
}

impl DeployUpdateV1 {
    /// Encode the derived contract identifier.
    pub fn encode(&self, out: &mut Vec<u8>) -> (n: usize)
        ensures
            final(out)@ == old(out)@ + enc_u64(self.contract_id),
            n == 8,
    {
        let before = out.len();
        encode_u64(self.contract_id, out);
        proof {
            crate::serial::lemma_dec_enc_u64(self.contract_id, Seq::<u8>::empty());
        }
        out.len() - before
    }

    /// Decode a deployment update.
    pub fn decode(data: &Vec<u8>, pos: usize) -> (r: Result<(DeployUpdateV1, usize), Error>)
        requires
            pos <= data@.len(),
        ensures
            match r {
                Ok(p) => dec_u64(data@.skip(pos as int)) == Some((p.0.contract_id, p.1 - pos))
                    && pos <= p.1 <= data@.len(),
                Err(e) => dec_u64(data@.skip(pos as int)) is None && e
                    == Error::MalformedEncoding,
            },
    {
        match decode_u64(data, pos) {
            Ok((contract_id, p)) => Ok((DeployUpdateV1 { contract_id }, p)),
            Err(e) => Err(e),
        }
    }
}

impl LockParamsV1 {
    /// Encode the locking key.
    pub fn encode(&self, out: &mut Vec<u8>) -> (n: usize)
        ensures
            final(out)@ == old(out)@ + enc_u64(self.public_key),
            n == 8,
    {
        let before = out.len();
        encode_u64(self.public_key, out);
        proof {
            crate::serial::lemma_dec_enc_u64(self.public_key, Seq::<u8>::empty());
        }
        out.len() - before
    }

    /// Decode lock parameters.
    pub fn decode(data: &Vec<u8>, pos: usize) -> (r: Result<(LockParamsV1, usize), Error>)
        requires
            pos <= data@.len(),
        ensures
            match r {
                Ok(p) => dec_u64(data@.skip(pos as int)) == Some((p.0.public_key, p.1 - pos))
                    && pos <= p.1 <= data@.len(),
                Err(e) => dec_u64(data@.skip(pos as int)) is None && e
                    == Error::MalformedEncoding,
            },
    {
        match decode_u64(data, pos) {
            Ok((public_key, p)) => Ok((LockParamsV1 { public_key }, p)),
            Err(e) => Err(e),
        }
    }
}

impl LockUpdateV1 {
    /// Encode the frozen contract identifier.
    pub fn encode(&self, out: &mut Vec<u8>) -> (n: usize)
        ensures
            final(out)@ == old(out)@ + enc_u64(self.contract_id),
            n == 8,
    {
        let before = out.len();
        encode_u64(self.contract_id, out);
        proof {
            crate::serial::lemma_dec_enc_u64(self.contract_id, Seq::<u8>::empty());
        }
        out.len() - before
    }

    /// Decode a lock update.
    pub fn decode(data: &Vec<u8>, pos: usize) -> (r: Result<(LockUpdateV1, usize), Error>)
        requires
            pos <= data@.len(),
        ensures
            match r {
                Ok(p) => dec_u64(data@.skip(pos as int)) == Some((p.0.contract_id, p.1 - pos))
                    && pos <= p.1 <= data@.len(),
                Err(e) => dec_u64(data@.skip(pos as int)) is None && e
                    == Error::MalformedEncoding,
            },
    {
        match decode_u64(data, pos) {
            Ok((contract_id, p)) => Ok((LockUpdateV1 { contract_id }, p)),
            Err(e) => Err(e),
        }
    }
}

} // verus!
