//! Domain types of the validator: contract calls, transactions, block
//! headers and blocks, with their wire codecs and content identities.

use vstd::prelude::*;

use crate::crypto::digest_of;
use crate::error::Error;
use crate::serial::{
    dec_bytes, dec_list, dec_list_items, dec_u64, dec_varint, enc_bytes, enc_list, enc_list_items,
    enc_u64, enc_varint,
    encode_bytes, encode_u64, encode_varint, decode_bytes, decode_u64, decode_varint,
    lemma_dec_enc_bytes, lemma_dec_enc_list, lemma_dec_enc_u64, lemma_enc_list_items_snoc,
};

verus! {

// ---------------------------------------------------------------------
// Types and views
// ---------------------------------------------------------------------

/// One invocation of a contract: the contract's identifier and the
/// payload bytes, whose first byte selects the function.
#[derive(Debug)]
pub struct ContractCall {
    pub contract_id: u64,
    pub data: Vec<u8>,
}

/// A proof attached to a call, checked against a verifying key and the
/// public inputs the call's metadata declares.
#[derive(Clone, Copy, Debug, PartialEq, Eq, Structural)]
pub struct Proof {
    pub payload: u64,
}

/// A signature attached to a call, checked against a declared public
/// key over the transaction's signing message.
#[derive(Clone, Copy, Debug, PartialEq, Eq, Structural)]
pub struct Signature {
    pub tag: u64,
}

/// An ordered list of contract calls with one proof list and one
/// signature list per call.
#[derive(Debug)]
pub struct Transaction {
    pub calls: Vec<ContractCall>,
    pub proofs: Vec<Vec<Proof>>,
    pub signatures: Vec<Vec<Signature>>,
}

/// A block header; the block's identity is the digest of its encoding.
#[derive(Clone, Copy, Debug, PartialEq, Eq, Structural)]
pub struct Header {
    pub slot: u64,
    pub previous: u64,
    pub tx_root: u64,
    pub producer: u64,
}

/// A candidate block: header, the producer's proposal transaction, and
/// the ordered user transactions.
#[derive(Debug)]
pub struct Block {
    pub header: Header,
    pub proposal: Transaction,
    pub txs: Vec<Transaction>,
}

/// The slot the engine is verifying against.
#[derive(Clone, Copy, Debug, PartialEq, Eq, Structural)]
pub struct TimeKeeper {
    pub verifying_slot: u64,
}

#[verifier::ext_equal]
pub ghost struct CallV {
    pub contract_id: u64,
    pub data: Seq<u8>,
}

#[verifier::ext_equal]
pub ghost struct TxV {
    pub calls: Seq<CallV>,
    pub proofs: Seq<Seq<Proof>>,
    pub signatures: Seq<Seq<Signature>>,
}

#[verifier::ext_equal]
pub ghost struct BlockV {
    pub header: Header,
    pub proposal: TxV,
    pub txs: Seq<TxV>,
}

impl View for ContractCall {
    type V = CallV;

    open spec fn view(&self) -> CallV {
        CallV { contract_id: self.contract_id, data: self.data@ }
    }
}

pub open spec fn calls_view(v: Seq<ContractCall>) -> Seq<CallV> {
    v.map_values(|c: ContractCall| c@)
}

pub open spec fn proofs_view(v: Seq<Vec<Proof>>) -> Seq<Seq<Proof>> {
    v.map_values(|p: Vec<Proof>| p@)
}

pub open spec fn sigs_view(v: Seq<Vec<Signature>>) -> Seq<Seq<Signature>> {
    v.map_values(|p: Vec<Signature>| p@)
}

impl View for Transaction {
    type V = TxV;

    open spec fn view(&self) -> TxV {
        TxV {
            calls: calls_view(self.calls@),
            proofs: proofs_view(self.proofs@),
            signatures: sigs_view(self.signatures@),
        }
    }
}

pub open spec fn txs_view(v: Seq<Transaction>) -> Seq<TxV> {
    v.map_values(|t: Transaction| t@)
}

pub open spec fn blocks_view(v: Seq<Block>) -> Seq<BlockV> {
    v.map_values(|b: Block| b@)
}

impl View for Block {
    type V = BlockV;

    open spec fn view(&self) -> BlockV {
        BlockV { header: self.header, proposal: self.proposal@, txs: txs_view(self.txs@) }
    }
}

/// The canonical empty transaction: the required proposal of a genesis
/// block.
pub open spec fn tx_default() -> TxV {
    TxV { calls: Seq::empty(), proofs: Seq::empty(), signatures: Seq::empty() }
}

impl Transaction {
    /// The canonical empty transaction.
    pub fn default() -> (r: Transaction)
        ensures
            r@ == tx_default(),
    {
        let r = Transaction { calls: Vec::new(), proofs: Vec::new(), signatures: Vec::new() };
        proof {
            assert(r@ =~~= tx_default());
        }
        r
    }
}

// ---------------------------------------------------------------------
// Codecs
// ---------------------------------------------------------------------

pub open spec fn enc_call(c: CallV) -> Seq<u8> {
    enc_u64(c.contract_id) + enc_bytes(c.data)
}

pub open spec fn dec_call(s: Seq<u8>) -> Option<(CallV, int)> {
    match dec_u64(s) {
        None => None,
        Some((contract_id, k)) => match dec_bytes(s.skip(k)) {
            None => None,
            Some((data, m)) => Some((CallV { contract_id, data }, k + m)),
        },
    }
}

pub open spec fn call_ok(c: CallV) -> bool {
    c.data.len() <= u64::MAX
}

pub proof fn lemma_dec_enc_call(c: CallV, rest: Seq<u8>)
    requires
        call_ok(c),
    ensures
        dec_call(enc_call(c) + rest) == Some((c, enc_call(c).len() as int)),
{
    let s = enc_call(c) + rest;
    lemma_dec_enc_u64(c.contract_id, enc_bytes(c.data) + rest);
    assert(s =~= enc_u64(c.contract_id) + (enc_bytes(c.data) + rest));
    lemma_dec_enc_bytes(c.data, rest);
    assert(s.skip(8) =~= enc_bytes(c.data) + rest);
}

impl ContractCall {
    /// Encode as contract identifier then payload bytes.
    pub fn encode(&self, out: &mut Vec<u8>) -> (n: usize)
        ensures
            final(out)@ == old(out)@ + enc_call(self@),
            n == enc_call(self@).len(),
    {
        let before = out.len();
        encode_u64(self.contract_id, out);
        encode_bytes(&self.data, out);
        proof {
            assert(out@ =~= old(out)@ + enc_call(self@));
        }
        out.len() - before
    }

    /// Decode a contract identifier and payload bytes.
    pub fn decode(data: &Vec<u8>, pos: usize) -> (r: Result<(ContractCall, usize), Error>)
        requires
            pos <= data@.len(),
        ensures
            match r {
                Ok(p) => {
                    &&& dec_call(data@.skip(pos as int)) == Some((p.0@, p.1 - pos))
                    &&& pos <= p.1 <= data@.len()
                },
                Err(e) => dec_call(data@.skip(pos as int)) is None && e
                    == Error::MalformedEncoding,
            },
    {
        let ghost s = data@.skip(pos as int);
        let (contract_id, p1) = match decode_u64(data, pos) {
            Ok(p) => p,
            Err(e) => {
                return Err(e);
            },
        };
        proof {
            assert(data@.skip(p1 as int) =~= s.skip(p1 - pos));
        }
        let (bytes, p2) = match decode_bytes(data, p1) {
            Ok(p) => p,
            Err(e) => {
                return Err(e);
            },
        };
        Ok((ContractCall { contract_id, data: bytes }, p2))
    }
}

pub open spec fn enc_call_fn() -> spec_fn(CallV) -> Seq<u8> {
    |c: CallV| enc_call(c)
}

pub open spec fn dec_call_fn() -> spec_fn(Seq<u8>) -> Option<(CallV, int)> {
    |s: Seq<u8>| dec_call(s)
}

pub open spec fn call_ok_fn() -> spec_fn(CallV) -> bool {
    |c: CallV| call_ok(c)
}

pub open spec fn enc_call_list(items: Seq<CallV>) -> Seq<u8> {
    enc_list(items, enc_call_fn())
}

pub open spec fn dec_call_list(s: Seq<u8>) -> Option<(Seq<CallV>, int)> {
    dec_list(s, dec_call_fn())
}

pub proof fn lemma_dec_enc_call_list(items: Seq<CallV>, rest: Seq<u8>)
    requires
        items.len() <= u64::MAX,
        forall|i: int| 0 <= i < items.len() ==> call_ok(#[trigger] items[i]),
    ensures
        dec_call_list(enc_call_list(items) + rest) == Some(
            (items, enc_call_list(items).len() as int),
        ),
{
    assert forall|x: CallV, r: Seq<u8>| call_ok_fn()(x) implies #[trigger] dec_call_fn()(
        enc_call_fn()(x) + r,
    ) == Some((x, enc_call_fn()(x).len() as int)) by {
        lemma_dec_enc_call(x, r);
    }
    assert(forall|i: int| 0 <= i < items.len() ==> call_ok_fn()(#[trigger] items[i]));
    lemma_dec_enc_list(items, rest, enc_call_fn(), dec_call_fn(), call_ok_fn());
}

/// Encode the ordered call list of a transaction.
pub fn encode_call_list(items: &Vec<ContractCall>, out: &mut Vec<u8>)
    ensures
        final(out)@ == old(out)@ + enc_call_list(calls_view(items@)),
{
    encode_varint(items.len() as u64, out);
    let ghost base = out@;
    let ghost views = calls_view(items@);
    let mut i: usize = 0;
    proof {
        assert(views.take(0) =~= Seq::<CallV>::empty());
        assert(out@ =~= base + enc_list_items(views.take(0), enc_call_fn()));
    }
    while i < items.len()
        invariant
            i <= items@.len(),
            views == calls_view(items@),
            out@ == base + enc_list_items(views.take(i as int), enc_call_fn()),
        decreases items@.len() - i,
    {
        items[i].encode(out);
        proof {
            assert(views.take(i + 1) =~= views.take(i as int).push(items@[i as int]@));
            lemma_enc_list_items_snoc(views.take(i as int), items@[i as int]@, enc_call_fn());
            assert(enc_call_fn()(items@[i as int]@) == enc_call(items@[i as int]@));
            assert(out@ =~= base + enc_list_items(views.take(i + 1), enc_call_fn()));
        }
        i = i + 1;
    }
    proof {
        assert(views.take(items@.len() as int) =~= views);
        assert(out@ =~= old(out)@ + enc_call_list(views));
    }
}

/// Decode an ordered call list.
pub fn decode_call_list(data: &Vec<u8>, pos: usize) -> (r: Result<
    (Vec<ContractCall>, usize),
    Error,
>)
    requires
        pos <= data@.len(),
    ensures
        match r {
            Ok(p) => {
                &&& dec_call_list(data@.skip(pos as int)) == Some(
                    (calls_view(p.0@), p.1 - pos),
                )
                &&& pos <= p.1 <= data@.len()
            },
            Err(e) => dec_call_list(data@.skip(pos as int)) is None && e
                == Error::MalformedEncoding,
        },
{
    let ghost s0 = data@.skip(pos as int);
    let dlen = data.len();
    let (n, mid) = match decode_varint(data, pos) {
        Ok(p) => p,
        Err(e) => {
            return Err(e);
        },
    };
    let mut items: Vec<ContractCall> = Vec::new();
    let mut p = mid;
    let mut i: u64 = 0;
    proof {
        assert(calls_view(items@) =~= Seq::<CallV>::empty());
        assert(data@.skip(mid as int) =~= s0.skip(mid - pos));
    }
    while i < n
        invariant
            i <= n,
            pos <= mid <= p <= data@.len(),
            data@.len() == dlen,
            dec_varint(s0) == Some((n, mid - pos)),
            s0 == data@.skip(pos as int),
            data@.skip(mid as int) == s0.skip(mid - pos),
            match dec_list_items(data@.skip(p as int), (n - i) as nat, dec_call_fn()) {
                Some(d) => dec_list_items(data@.skip(mid as int), n as nat, dec_call_fn())
                    == Some((calls_view(items@) + d.0, (p - mid) + d.1)),
                None => dec_list_items(data@.skip(mid as int), n as nat, dec_call_fn()) is None,
            },
        decreases n - i,
    {
        let ghost before = calls_view(items@);
        match ContractCall::decode(data, p) {
            Err(e) => {
                proof {
                    assert(dec_call_fn()(data@.skip(p as int)) is None);
                }
                return Err(e);
            },
            Ok((c, p2)) => {
                proof {
                    assert(dec_call_fn()(data@.skip(p as int)) == Some((c@, p2 - p)));
                    assert(data@.skip(p as int).skip(p2 - p) =~= data@.skip(p2 as int));
                    assert(calls_view(items@.push(c)) =~~= before.push(c@));
                    match dec_list_items(data@.skip(p2 as int), (n - i - 1) as nat, dec_call_fn())
                        {
                        Some(d2) => {
                            assert((before + (seq![c@] + d2.0)) =~= (before.push(c@) + d2.0));
                        },
                        None => {},
                    }
                }
                items.push(c);
                p = p2;
                i = i + 1;
            },
        }
    }
    proof {
        assert(dec_list_items(data@.skip(p as int), 0, dec_call_fn()) == Some(
            (Seq::<CallV>::empty(), 0int),
        ));
        assert(calls_view(items@) + Seq::<CallV>::empty() =~= calls_view(items@));
    }
    Ok((items, p))
}

// ---------------------------------------------------------------------
// Proof and signature lists
// ---------------------------------------------------------------------

pub open spec fn enc_proof(p: Proof) -> Seq<u8> {
    enc_u64(p.payload)
}

pub open spec fn dec_proof(s: Seq<u8>) -> Option<(Proof, int)> {
    match dec_u64(s) {
        None => None,
        Some((v, k)) => Some((Proof { payload: v }, k)),
    }
}

pub proof fn lemma_dec_enc_proof(p: Proof, rest: Seq<u8>)
    ensures
        dec_proof(enc_proof(p) + rest) == Some((p, enc_proof(p).len() as int)),
{
    lemma_dec_enc_u64(p.payload, rest);
}

pub open spec fn enc_proof_fn() -> spec_fn(Proof) -> Seq<u8> {
    |p: Proof| enc_proof(p)
}

pub open spec fn dec_proof_fn() -> spec_fn(Seq<u8>) -> Option<(Proof, int)> {
    |s: Seq<u8>| dec_proof(s)
}

pub open spec fn any_proof_fn() -> spec_fn(Proof) -> bool {
    |p: Proof| true
}

pub open spec fn enc_proof_list(items: Seq<Proof>) -> Seq<u8> {
    enc_list(items, enc_proof_fn())
}

pub open spec fn dec_proof_list(s: Seq<u8>) -> Option<(Seq<Proof>, int)> {
    dec_list(s, dec_proof_fn())
}

pub proof fn lemma_dec_enc_proof_list(items: Seq<Proof>, rest: Seq<u8>)
    requires
        items.len() <= u64::MAX,
    ensures
        dec_proof_list(enc_proof_list(items) + rest) == Some(
            (items, enc_proof_list(items).len() as int),
        ),
{
    assert forall|x: Proof, r: Seq<u8>| any_proof_fn()(x) implies #[trigger] dec_proof_fn()(
        enc_proof_fn()(x) + r,
    ) == Some((x, enc_proof_fn()(x).len() as int)) by {
        lemma_dec_enc_proof(x, r);
    }
    lemma_dec_enc_list(items, rest, enc_proof_fn(), dec_proof_fn(), any_proof_fn());
}

fn encode_proof_list(items: &Vec<Proof>, out: &mut Vec<u8>)
    ensures
        final(out)@ == old(out)@ + enc_proof_list(items@),
{
    encode_varint(items.len() as u64, out);
    let ghost base = out@;
    let mut i: usize = 0;
    proof {
        assert(items@.take(0) =~= Seq::<Proof>::empty());
        assert(out@ =~= base + enc_list_items(items@.take(0), enc_proof_fn()));
    }
    while i < items.len()
        invariant
            i <= items@.len(),
            out@ == base + enc_list_items(items@.take(i as int), enc_proof_fn()),
        decreases items@.len() - i,
    {
        encode_u64(items[i].payload, out);
        proof {
            assert(items@.take(i + 1) =~= items@.take(i as int).push(items@[i as int]));
            lemma_enc_list_items_snoc(items@.take(i as int), items@[i as int], enc_proof_fn());
            assert(enc_proof_fn()(items@[i as int]) == enc_proof(items@[i as int]));
            assert(out@ =~= base + enc_list_items(items@.take(i + 1), enc_proof_fn()));
        }
        i = i + 1;
    }
    proof {
        assert(items@.take(items@.len() as int) =~= items@);
        assert(out@ =~= old(out)@ + enc_proof_list(items@));
    }
}

fn decode_proof_one(data: &Vec<u8>, pos: usize) -> (r: Result<(Proof, usize), Error>)
    requires
        pos <= data@.len(),
    ensures
        match r {
            Ok(p) => {
                &&& dec_proof(data@.skip(pos as int)) == Some((p.0, p.1 - pos))
                &&& pos <= p.1 <= data@.len()
            },
            Err(e) => dec_proof(data@.skip(pos as int)) is None && e == Error::MalformedEncoding,
        },
{
    match decode_u64(data, pos) {
        Ok((v, p)) => Ok((Proof { payload: v }, p)),
        Err(e) => Err(e),
    }
}

fn decode_proof_list(data: &Vec<u8>, pos: usize) -> (r: Result<(Vec<Proof>, usize), Error>)
    requires
        pos <= data@.len(),
    ensures
        match r {
            Ok(p) => {
                &&& dec_proof_list(data@.skip(pos as int)) == Some((p.0@, p.1 - pos))
                &&& pos <= p.1 <= data@.len()
            },
            Err(e) => dec_proof_list(data@.skip(pos as int)) is None && e
                == Error::MalformedEncoding,
        },
{
    let ghost s0 = data@.skip(pos as int);
    let dlen = data.len();
    let (n, mid) = match decode_varint(data, pos) {
        Ok(p) => p,
        Err(e) => {
            return Err(e);
        },
    };
    let mut items: Vec<Proof> = Vec::new();
    let mut p = mid;
    let mut i: u64 = 0;
    proof {
        assert(data@.skip(mid as int) =~= s0.skip(mid - pos));
    }
    while i < n
        invariant
            i <= n,
            pos <= mid <= p <= data@.len(),
            data@.len() == dlen,
            dec_varint(s0) == Some((n, mid - pos)),
            s0 == data@.skip(pos as int),
            data@.skip(mid as int) == s0.skip(mid - pos),
            match dec_list_items(data@.skip(p as int), (n - i) as nat, dec_proof_fn()) {
                Some(d) => dec_list_items(data@.skip(mid as int), n as nat, dec_proof_fn())
                    == Some((items@ + d.0, (p - mid) + d.1)),
                None => dec_list_items(data@.skip(mid as int), n as nat, dec_proof_fn()) is None,
            },
        decreases n - i,
    {
        let ghost before = items@;
        match decode_proof_one(data, p) {
            Err(e) => {
                proof {
                    assert(dec_proof_fn()(data@.skip(p as int)) is None);
                }
                return Err(e);
            },
            Ok((x, p2)) => {
                proof {
                    assert(dec_proof_fn()(data@.skip(p as int)) == Some((x, p2 - p)));
                    assert(data@.skip(p as int).skip(p2 - p) =~= data@.skip(p2 as int));
                    match dec_list_items(data@.skip(p2 as int), (n - i - 1) as nat, dec_proof_fn())
                        {
                        Some(d2) => {
                            assert((before + (seq![x] + d2.0)) =~= (before.push(x) + d2.0));
                        },
                        None => {},
                    }
                }
                items.push(x);
                p = p2;
                i = i + 1;
            },
        }
    }
    proof {
        assert(dec_list_items(data@.skip(p as int), 0, dec_proof_fn()) == Some(
            (Seq::<Proof>::empty(), 0int),
        ));
        assert(items@ + Seq::<Proof>::empty() =~= items@);
    }
    Ok((items, p))
}

pub open spec fn enc_proofs_fn() -> spec_fn(Seq<Proof>) -> Seq<u8> {
    |ps: Seq<Proof>| enc_proof_list(ps)
}

pub open spec fn dec_proofs_fn() -> spec_fn(Seq<u8>) -> Option<(Seq<Proof>, int)> {
    |s: Seq<u8>| dec_proof_list(s)
}

pub open spec fn proofs_ok_fn() -> spec_fn(Seq<Proof>) -> bool {
    |ps: Seq<Proof>| ps.len() <= u64::MAX
}

pub open spec fn enc_proofs(items: Seq<Seq<Proof>>) -> Seq<u8> {
    enc_list(items, enc_proofs_fn())
}

pub open spec fn dec_proofs(s: Seq<u8>) -> Option<(Seq<Seq<Proof>>, int)> {
    dec_list(s, dec_proofs_fn())
}

pub proof fn lemma_dec_enc_proofs(items: Seq<Seq<Proof>>, rest: Seq<u8>)
    requires
        items.len() <= u64::MAX,
        forall|i: int| 0 <= i < items.len() ==> (#[trigger] items[i]).len() <= u64::MAX,
    ensures
        dec_proofs(enc_proofs(items) + rest) == Some((items, enc_proofs(items).len() as int)),
{
    assert forall|x: Seq<Proof>, r: Seq<u8>| proofs_ok_fn()(x) implies #[trigger] dec_proofs_fn()(
        enc_proofs_fn()(x) + r,
    ) == Some((x, enc_proofs_fn()(x).len() as int)) by {
        lemma_dec_enc_proof_list(x, r);
    }
    assert(forall|i: int| 0 <= i < items.len() ==> proofs_ok_fn()(#[trigger] items[i]));
    lemma_dec_enc_list(items, rest, enc_proofs_fn(), dec_proofs_fn(), proofs_ok_fn());
}

fn encode_proofs(items: &Vec<Vec<Proof>>, out: &mut Vec<u8>)
    ensures
        final(out)@ == old(out)@ + enc_proofs(proofs_view(items@)),
{
    encode_varint(items.len() as u64, out);
    let ghost base = out@;
    let ghost views = proofs_view(items@);
    let mut i: usize = 0;
    proof {
        assert(views.take(0) =~= Seq::<Seq<Proof>>::empty());
        assert(out@ =~= base + enc_list_items(views.take(0), enc_proofs_fn()));
    }
    while i < items.len()
        invariant
            i <= items@.len(),
            views == proofs_view(items@),
            out@ == base + enc_list_items(views.take(i as int), enc_proofs_fn()),
        decreases items@.len() - i,
    {
        encode_proof_list(&items[i], out);
        proof {
            assert(views.take(i + 1) =~= views.take(i as int).push(items@[i as int]@));
            lemma_enc_list_items_snoc(views.take(i as int), items@[i as int]@, enc_proofs_fn());
            assert(enc_proofs_fn()(items@[i as int]@) == enc_proof_list(items@[i as int]@));
            assert(out@ =~= base + enc_list_items(views.take(i + 1), enc_proofs_fn()));
        }
        i = i + 1;
    }
    proof {
        assert(views.take(items@.len() as int) =~= views);
        assert(out@ =~= old(out)@ + enc_proofs(views));
    }
}

fn decode_proofs(data: &Vec<u8>, pos: usize) -> (r: Result<(Vec<Vec<Proof>>, usize), Error>)
    requires
        pos <= data@.len(),
    ensures
        match r {
            Ok(p) => {
                &&& dec_proofs(data@.skip(pos as int)) == Some((proofs_view(p.0@), p.1 - pos))
                &&& pos <= p.1 <= data@.len()
            },
            Err(e) => dec_proofs(data@.skip(pos as int)) is None && e
                == Error::MalformedEncoding,
        },
{
    let ghost s0 = data@.skip(pos as int);
    let dlen = data.len();
    let (n, mid) = match decode_varint(data, pos) {
        Ok(p) => p,
        Err(e) => {
            return Err(e);
        },
    };
    let mut items: Vec<Vec<Proof>> = Vec::new();
    let mut p = mid;
    let mut i: u64 = 0;
    proof {
        assert(proofs_view(items@) =~= Seq::<Seq<Proof>>::empty());
        assert(data@.skip(mid as int) =~= s0.skip(mid - pos));
    }
    while i < n
        invariant
            i <= n,
            pos <= mid <= p <= data@.len(),
            data@.len() == dlen,
            dec_varint(s0) == Some((n, mid - pos)),
            s0 == data@.skip(pos as int),
            data@.skip(mid as int) == s0.skip(mid - pos),
            match dec_list_items(data@.skip(p as int), (n - i) as nat, dec_proofs_fn()) {
                Some(d) => dec_list_items(data@.skip(mid as int), n as nat, dec_proofs_fn())
                    == Some((proofs_view(items@) + d.0, (p - mid) + d.1)),
                None => dec_list_items(data@.skip(mid as int), n as nat, dec_proofs_fn())
                    is None,
            },
        decreases n - i,
    {
        let ghost before = proofs_view(items@);
        match decode_proof_list(data, p) {
            Err(e) => {
                proof {
                    assert(dec_proofs_fn()(data@.skip(p as int)) is None);
                }
                return Err(e);
            },
            Ok((x, p2)) => {
                proof {
                    assert(dec_proofs_fn()(data@.skip(p as int)) == Some((x@, p2 - p)));
                    assert(data@.skip(p as int).skip(p2 - p) =~= data@.skip(p2 as int));
                    assert(proofs_view(items@.push(x)) =~~= before.push(x@));
                    match dec_list_items(data@.skip(p2 as int), (n - i - 1) as nat,
                        dec_proofs_fn()) {
                        Some(d2) => {
                            assert((before + (seq![x@] + d2.0)) =~= (before.push(x@) + d2.0));
                        },
                        None => {},
                    }
                }
                items.push(x);
                p = p2;
                i = i + 1;
            },
        }
    }
    proof {
        assert(dec_list_items(data@.skip(p as int), 0, dec_proofs_fn()) == Some(
            (Seq::<Seq<Proof>>::empty(), 0int),
        ));
        assert(proofs_view(items@) + Seq::<Seq<Proof>>::empty() =~= proofs_view(items@));
    }
    Ok((items, p))
}

pub open spec fn enc_sig(x: Signature) -> Seq<u8> {
    enc_u64(x.tag)
}

pub open spec fn dec_sig(s: Seq<u8>) -> Option<(Signature, int)> {
    match dec_u64(s) {
        None => None,
        Some((v, k)) => Some((Signature { tag: v }, k)),
    }
}

pub proof fn lemma_dec_enc_sig(x: Signature, rest: Seq<u8>)
    ensures
        dec_sig(enc_sig(x) + rest) == Some((x, enc_sig(x).len() as int)),
{
    lemma_dec_enc_u64(x.tag, rest);
}

pub open spec fn enc_sig_fn() -> spec_fn(Signature) -> Seq<u8> {
    |x: Signature| enc_sig(x)
}

pub open spec fn dec_sig_fn() -> spec_fn(Seq<u8>) -> Option<(Signature, int)> {
    |s: Seq<u8>| dec_sig(s)
}

pub open spec fn any_sig_fn() -> spec_fn(Signature) -> bool {
    |x: Signature| true
}

pub open spec fn enc_sig_list(items: Seq<Signature>) -> Seq<u8> {
    enc_list(items, enc_sig_fn())
}

pub open spec fn dec_sig_list(s: Seq<u8>) -> Option<(Seq<Signature>, int)> {
    dec_list(s, dec_sig_fn())
}

pub proof fn lemma_dec_enc_sig_list(items: Seq<Signature>, rest: Seq<u8>)
    requires
        items.len() <= u64::MAX,
    ensures
        dec_sig_list(enc_sig_list(items) + rest) == Some(
            (items, enc_sig_list(items).len() as int),
        ),
{
    assert forall|x: Signature, r: Seq<u8>| any_sig_fn()(x) implies #[trigger] dec_sig_fn()(
        enc_sig_fn()(x) + r,
    ) == Some((x, enc_sig_fn()(x).len() as int)) by {
        lemma_dec_enc_sig(x, r);
    }
    lemma_dec_enc_list(items, rest, enc_sig_fn(), dec_sig_fn(), any_sig_fn());
}

fn encode_sig_list(items: &Vec<Signature>, out: &mut Vec<u8>)
    ensures
        final(out)@ == old(out)@ + enc_sig_list(items@),
{
    encode_varint(items.len() as u64, out);
    let ghost base = out@;
    let mut i: usize = 0;
    proof {
        assert(items@.take(0) =~= Seq::<Signature>::empty());
        assert(out@ =~= base + enc_list_items(items@.take(0), enc_sig_fn()));
    }
    while i < items.len()
        invariant
            i <= items@.len(),
            out@ == base + enc_list_items(items@.take(i as int), enc_sig_fn()),
        decreases items@.len() - i,
    {
        encode_u64(items[i].tag, out);
        proof {
            assert(items@.take(i + 1) =~= items@.take(i as int).push(items@[i as int]));
            lemma_enc_list_items_snoc(items@.take(i as int), items@[i as int], enc_sig_fn());
            assert(enc_sig_fn()(items@[i as int]) == enc_sig(items@[i as int]));
            assert(out@ =~= base + enc_list_items(items@.take(i + 1), enc_sig_fn()));
        }
        i = i + 1;
    }
    proof {
        assert(items@.take(items@.len() as int) =~= items@);
        assert(out@ =~= old(out)@ + enc_sig_list(items@));
    }
}

fn decode_sig_one(data: &Vec<u8>, pos: usize) -> (r: Result<(Signature, usize), Error>)
    requires
        pos <= data@.len(),
    ensures
        match r {
            Ok(p) => {
                &&& dec_sig(data@.skip(pos as int)) == Some((p.0, p.1 - pos))
                &&& pos <= p.1 <= data@.len()
            },
            Err(e) => dec_sig(data@.skip(pos as int)) is None && e == Error::MalformedEncoding,
        },
{
    match decode_u64(data, pos) {
        Ok((v, p)) => Ok((Signature { tag: v }, p)),
        Err(e) => Err(e),
    }
}

fn decode_sig_list(data: &Vec<u8>, pos: usize) -> (r: Result<(Vec<Signature>, usize), Error>)
    requires
        pos <= data@.len(),
    ensures
        match r {
            Ok(p) => {
                &&& dec_sig_list(data@.skip(pos as int)) == Some((p.0@, p.1 - pos))
                &&& pos <= p.1 <= data@.len()
            },
            Err(e) => dec_sig_list(data@.skip(pos as int)) is None && e
                == Error::MalformedEncoding,
        },
{
    let ghost s0 = data@.skip(pos as int);
    let dlen = data.len();
    let (n, mid) = match decode_varint(data, pos) {
        Ok(p) => p,
        Err(e) => {
            return Err(e);
        },
    };
    let mut items: Vec<Signature> = Vec::new();
    let mut p = mid;
    let mut i: u64 = 0;
    proof {
        assert(data@.skip(mid as int) =~= s0.skip(mid - pos));
    }
    while i < n
        invariant
            i <= n,
            pos <= mid <= p <= data@.len(),
            data@.len() == dlen,
            dec_varint(s0) == Some((n, mid - pos)),
            s0 == data@.skip(pos as int),
            data@.skip(mid as int) == s0.skip(mid - pos),
            match dec_list_items(data@.skip(p as int), (n - i) as nat, dec_sig_fn()) {
                Some(d) => dec_list_items(data@.skip(mid as int), n as nat, dec_sig_fn())
                    == Some((items@ + d.0, (p - mid) + d.1)),
                None => dec_list_items(data@.skip(mid as int), n as nat, dec_sig_fn()) is None,
            },
        decreases n - i,
    {
        let ghost before = items@;
        match decode_sig_one(data, p) {
            Err(e) => {
                proof {
                    assert(dec_sig_fn()(data@.skip(p as int)) is None);
                }
                return Err(e);
            },
            Ok((x, p2)) => {
                proof {
                    assert(dec_sig_fn()(data@.skip(p as int)) == Some((x, p2 - p)));
                    assert(data@.skip(p as int).skip(p2 - p) =~= data@.skip(p2 as int));
                    match dec_list_items(data@.skip(p2 as int), (n - i - 1) as nat, dec_sig_fn())
                        {
                        Some(d2) => {
                            assert((before + (seq![x] + d2.0)) =~= (before.push(x) + d2.0));
                        },
                        None => {},
                    }
                }
                items.push(x);
                p = p2;
                i = i + 1;
            },
        }
    }
    proof {
        assert(dec_list_items(data@.skip(p as int), 0, dec_sig_fn()) == Some(
            (Seq::<Signature>::empty(), 0int),
        ));
        assert(items@ + Seq::<Signature>::empty() =~= items@);
    }
    Ok((items, p))
}

pub open spec fn enc_sigs_fn() -> spec_fn(Seq<Signature>) -> Seq<u8> {
    |ps: Seq<Signature>| enc_sig_list(ps)
}

pub open spec fn dec_sigs_fn() -> spec_fn(Seq<u8>) -> Option<(Seq<Signature>, int)> {
    |s: Seq<u8>| dec_sig_list(s)
}

pub open spec fn sigs_ok_fn() -> spec_fn(Seq<Signature>) -> bool {
    |ps: Seq<Signature>| ps.len() <= u64::MAX
}

pub open spec fn enc_sigs(items: Seq<Seq<Signature>>) -> Seq<u8> {
    enc_list(items, enc_sigs_fn())
}

pub open spec fn dec_sigs(s: Seq<u8>) -> Option<(Seq<Seq<Signature>>, int)> {
    dec_list(s, dec_sigs_fn())
}

pub proof fn lemma_dec_enc_sigs(items: Seq<Seq<Signature>>, rest: Seq<u8>)
    requires
        items.len() <= u64::MAX,
        forall|i: int| 0 <= i < items.len() ==> (#[trigger] items[i]).len() <= u64::MAX,
    ensures
        dec_sigs(enc_sigs(items) + rest) == Some((items, enc_sigs(items).len() as int)),
{
    assert forall|x: Seq<Signature>, r: Seq<u8>| sigs_ok_fn()(x) implies #[trigger] dec_sigs_fn()(
        enc_sigs_fn()(x) + r,
    ) == Some((x, enc_sigs_fn()(x).len() as int)) by {
        lemma_dec_enc_sig_list(x, r);
    }
    assert(forall|i: int| 0 <= i < items.len() ==> sigs_ok_fn()(#[trigger] items[i]));
    lemma_dec_enc_list(items, rest, enc_sigs_fn(), dec_sigs_fn(), sigs_ok_fn());
}

fn encode_sigs(items: &Vec<Vec<Signature>>, out: &mut Vec<u8>)
    ensures
        final(out)@ == old(out)@ + enc_sigs(sigs_view(items@)),
{
    encode_varint(items.len() as u64, out);
    let ghost base = out@;
    let ghost views = sigs_view(items@);
    let mut i: usize = 0;
    proof {
        assert(views.take(0) =~= Seq::<Seq<Signature>>::empty());
        assert(out@ =~= base + enc_list_items(views.take(0), enc_sigs_fn()));
    }
    while i < items.len()
        invariant
            i <= items@.len(),
            views == sigs_view(items@),
            out@ == base + enc_list_items(views.take(i as int), enc_sigs_fn()),
        decreases items@.len() - i,
    {
        encode_sig_list(&items[i], out);
        proof {
            assert(views.take(i + 1) =~= views.take(i as int).push(items@[i as int]@));
            lemma_enc_list_items_snoc(views.take(i as int), items@[i as int]@, enc_sigs_fn());
            assert(enc_sigs_fn()(items@[i as int]@) == enc_sig_list(items@[i as int]@));
            assert(out@ =~= base + enc_list_items(views.take(i + 1), enc_sigs_fn()));
        }
        i = i + 1;
    }
    proof {
        assert(views.take(items@.len() as int) =~= views);
        assert(out@ =~= old(out)@ + enc_sigs(views));
    }
}

fn decode_sigs(data: &Vec<u8>, pos: usize) -> (r: Result<(Vec<Vec<Signature>>, usize), Error>)
    requires
        pos <= data@.len(),
    ensures
        match r {
            Ok(p) => {
                &&& dec_sigs(data@.skip(pos as int)) == Some((sigs_view(p.0@), p.1 - pos))
                &&& pos <= p.1 <= data@.len()
            },
            Err(e) => dec_sigs(data@.skip(pos as int)) is None && e == Error::MalformedEncoding,
        },
{
    let ghost s0 = data@.skip(pos as int);
    let dlen = data.len();
    let (n, mid) = match decode_varint(data, pos) {
        Ok(p) => p,
        Err(e) => {
            return Err(e);
        },
    };
    let mut items: Vec<Vec<Signature>> = Vec::new();
    let mut p = mid;
    let mut i: u64 = 0;
    proof {
        assert(sigs_view(items@) =~= Seq::<Seq<Signature>>::empty());
        assert(data@.skip(mid as int) =~= s0.skip(mid - pos));
    }
    while i < n
        invariant
            i <= n,
            pos <= mid <= p <= data@.len(),
            data@.len() == dlen,
            dec_varint(s0) == Some((n, mid - pos)),
            s0 == data@.skip(pos as int),
            data@.skip(mid as int) == s0.skip(mid - pos),
            match dec_list_items(data@.skip(p as int), (n - i) as nat, dec_sigs_fn()) {
                Some(d) => dec_list_items(data@.skip(mid as int), n as nat, dec_sigs_fn())
                    == Some((sigs_view(items@) + d.0, (p - mid) + d.1)),
                None => dec_list_items(data@.skip(mid as int), n as nat, dec_sigs_fn()) is None,
            },
        decreases n - i,
    {
        let ghost before = sigs_view(items@);
        match decode_sig_list(data, p) {
            Err(e) => {
                proof {
                    assert(dec_sigs_fn()(data@.skip(p as int)) is None);
                }
                return Err(e);
            },
            Ok((x, p2)) => {
                proof {
                    assert(dec_sigs_fn()(data@.skip(p as int)) == Some((x@, p2 - p)));
                    assert(data@.skip(p as int).skip(p2 - p) =~= data@.skip(p2 as int));
                    assert(sigs_view(items@.push(x)) =~~= before.push(x@));
                    match dec_list_items(data@.skip(p2 as int), (n - i - 1) as nat, dec_sigs_fn())
                        {
                        Some(d2) => {
                            assert((before + (seq![x@] + d2.0)) =~= (before.push(x@) + d2.0));
                        },
                        None => {},
                    }
                }
                items.push(x);
                p = p2;
                i = i + 1;
            },
        }
    }
    proof {
        assert(dec_list_items(data@.skip(p as int), 0, dec_sigs_fn()) == Some(
            (Seq::<Seq<Signature>>::empty(), 0int),
        ));
        assert(sigs_view(items@) + Seq::<Seq<Signature>>::empty() =~= sigs_view(items@));
    }
    Ok((items, p))
}

// ---------------------------------------------------------------------
// Transaction, header and block
// ---------------------------------------------------------------------

pub open spec fn enc_tx(t: TxV) -> Seq<u8> {
    enc_call_list(t.calls) + enc_proofs(t.proofs) + enc_sigs(t.signatures)
}

pub open spec fn dec_tx(s: Seq<u8>) -> Option<(TxV, int)> {
    match dec_call_list(s) {
        None => None,
        Some((calls, k1)) => match dec_proofs(s.skip(k1)) {
            None => None,
            Some((proofs, k2)) => match dec_sigs(s.skip(k1 + k2)) {
                None => None,
                Some((signatures, k3)) => Some(
                    (TxV { calls, proofs, signatures }, k1 + k2 + k3),
                ),
            },
        },
    }
}

/// Machine-representable lengths throughout a transaction.
pub open spec fn tx_codable(t: TxV) -> bool {
    &&& t.calls.len() <= u64::MAX
    &&& forall|i: int| 0 <= i < t.calls.len() ==> call_ok(#[trigger] t.calls[i])
    &&& t.proofs.len() <= u64::MAX
    &&& forall|i: int| 0 <= i < t.proofs.len() ==> (#[trigger] t.proofs[i]).len() <= u64::MAX
    &&& t.signatures.len() <= u64::MAX
    &&& forall|i: int|
        0 <= i < t.signatures.len() ==> (#[trigger] t.signatures[i]).len() <= u64::MAX
}

pub proof fn lemma_dec_enc_tx(t: TxV, rest: Seq<u8>)
    requires
        tx_codable(t),
    ensures
        dec_tx(enc_tx(t) + rest) == Some((t, enc_tx(t).len() as int)),
{
    let s = enc_tx(t) + rest;
    let e1 = enc_call_list(t.calls);
    let e2 = enc_proofs(t.proofs);
    let e3 = enc_sigs(t.signatures);
    assert(s =~= e1 + (e2 + (e3 + rest)));
    lemma_dec_enc_call_list(t.calls, e2 + (e3 + rest));
    assert(s.skip(e1.len() as int) =~= e2 + (e3 + rest));
    lemma_dec_enc_proofs(t.proofs, e3 + rest);
    assert(s.skip(e1.len() as int + e2.len() as int) =~= e3 + rest);
    lemma_dec_enc_sigs(t.signatures, rest);
}

impl Transaction {
    /// Encode as calls, proof lists, then signature lists.
    pub fn encode(&self, out: &mut Vec<u8>) -> (n: usize)
        ensures
            final(out)@ == old(out)@ + enc_tx(self@),
            n == enc_tx(self@).len(),
    {
        let before = out.len();
        encode_call_list(&self.calls, out);
        encode_proofs(&self.proofs, out);
        encode_sigs(&self.signatures, out);
        proof {
            assert(out@ =~= old(out)@ + enc_tx(self@));
        }
        out.len() - before
    }

    /// Decode a transaction.
    pub fn decode(data: &Vec<u8>, pos: usize) -> (r: Result<(Transaction, usize), Error>)
        requires
            pos <= data@.len(),
        ensures
            match r {
                Ok(p) => {
                    &&& dec_tx(data@.skip(pos as int)) == Some((p.0@, p.1 - pos))
                    &&& pos <= p.1 <= data@.len()
                },
                Err(e) => dec_tx(data@.skip(pos as int)) is None && e
                    == Error::MalformedEncoding,
            },
    {
        let ghost s = data@.skip(pos as int);
        let (calls, p1) = match decode_call_list(data, pos) {
            Ok(p) => p,
            Err(e) => {
                return Err(e);
            },
        };
        proof {
            assert(data@.skip(p1 as int) =~= s.skip(p1 - pos));
        }
        let (proofs, p2) = match decode_proofs(data, p1) {
            Ok(p) => p,
            Err(e) => {
                return Err(e);
            },
        };
        proof {
            assert(data@.skip(p2 as int) =~= s.skip((p1 - pos) + (p2 - p1)));
        }
        let (signatures, p3) = match decode_sigs(data, p2) {
            Ok(p) => p,
            Err(e) => {
                return Err(e);
            },
        };
        let t = Transaction { calls, proofs, signatures };
        proof {
            assert(dec_tx(s) == Some((t@, p3 - pos)));
        }
        Ok((t, p3))
    }

    /// The digest a signature over this transaction must cover: the
    /// encoded call list.
    pub fn sig_message(&self) -> (m: u64)
        ensures
            m == tx_sig_msg(self@),
    {
        let mut buf: Vec<u8> = Vec::new();
        encode_call_list(&self.calls, &mut buf);
        crate::crypto::digest_bytes(&buf)
    }

    /// The transaction's identity: the digest of its encoding.
    pub fn hash(&self) -> (h: u64)
        ensures
            h == spec_tx_hash(self@),
    {
        let mut buf: Vec<u8> = Vec::new();
        self.encode(&mut buf);
        crate::crypto::digest_bytes(&buf)
    }
}

/// The message a transaction's signatures cover.
pub open spec fn tx_sig_msg(t: TxV) -> u64 {
    digest_of(enc_call_list(t.calls))
}

/// A transaction's content identity.
pub open spec fn spec_tx_hash(t: TxV) -> u64 {
    digest_of(enc_tx(t))
}

pub open spec fn enc_header(h: Header) -> Seq<u8> {
    enc_u64(h.slot) + enc_u64(h.previous) + enc_u64(h.tx_root) + enc_u64(h.producer)
}

pub open spec fn dec_header(s: Seq<u8>) -> Option<(Header, int)> {
    match dec_u64(s) {
        None => None,
        Some((slot, k1)) => match dec_u64(s.skip(k1)) {
            None => None,
            Some((previous, k2)) => match dec_u64(s.skip(k1 + k2)) {
                None => None,
                Some((tx_root, k3)) => match dec_u64(s.skip(k1 + k2 + k3)) {
                    None => None,
                    Some((producer, k4)) => Some(
                        (Header { slot, previous, tx_root, producer }, k1 + k2 + k3 + k4),
                    ),
                },
            },
        },
    }
}

pub proof fn lemma_dec_enc_header(h: Header, rest: Seq<u8>)
    ensures
        dec_header(enc_header(h) + rest) == Some((h, enc_header(h).len() as int)),
        enc_header(h).len() == 32,
{
    let s = enc_header(h) + rest;
    let e1 = enc_u64(h.slot);
    let e2 = enc_u64(h.previous);
    let e3 = enc_u64(h.tx_root);
    let e4 = enc_u64(h.producer);
    assert(s =~= e1 + (e2 + (e3 + (e4 + rest))));
    lemma_dec_enc_u64(h.slot, e2 + (e3 + (e4 + rest)));
    assert(s.skip(8) =~= e2 + (e3 + (e4 + rest)));
    lemma_dec_enc_u64(h.previous, e3 + (e4 + rest));
    assert(s.skip(16) =~= e3 + (e4 + rest));
    lemma_dec_enc_u64(h.tx_root, e4 + rest);
    assert(s.skip(24) =~= e4 + rest);
    lemma_dec_enc_u64(h.producer, rest);
}

impl Header {
    /// Encode as slot, previous hash, transaction root, then producer.
    pub fn encode(&self, out: &mut Vec<u8>) -> (n: usize)
        ensures
            final(out)@ == old(out)@ + enc_header(*self),
            n == enc_header(*self).len(),
    {
        let before = out.len();
        encode_u64(self.slot, out);
        encode_u64(self.previous, out);
        encode_u64(self.tx_root, out);
        encode_u64(self.producer, out);
        proof {
            assert(out@ =~= old(out)@ + enc_header(*self));
        }
        out.len() - before
    }

    /// Decode a header.
    pub fn decode(data: &Vec<u8>, pos: usize) -> (r: Result<(Header, usize), Error>)
        requires
            pos <= data@.len(),
        ensures
            match r {
                Ok(p) => {
                    &&& dec_header(data@.skip(pos as int)) == Some((p.0, p.1 - pos))
                    &&& pos <= p.1 <= data@.len()
                },
                Err(e) => dec_header(data@.skip(pos as int)) is None && e
                    == Error::MalformedEncoding,
            },
    {
        let ghost s = data@.skip(pos as int);
        let (slot, p1) = match decode_u64(data, pos) {
            Ok(p) => p,
            Err(e) => {
                return Err(e);
            },
        };
        proof {
            assert(data@.skip(p1 as int) =~= s.skip(p1 - pos));
        }
        let (previous, p2) = match decode_u64(data, p1) {
            Ok(p) => p,
            Err(e) => {
                return Err(e);
            },
        };
        proof {
            assert(data@.skip(p2 as int) =~= s.skip((p1 - pos) + (p2 - p1)));
        }
        let (tx_root, p3) = match decode_u64(data, p2) {
            Ok(p) => p,
            Err(e) => {
                return Err(e);
            },
        };
        proof {
            assert(data@.skip(p3 as int) =~= s.skip((p1 - pos) + (p2 - p1) + (p3 - p2)));
        }
        let (producer, p4) = match decode_u64(data, p3) {
            Ok(p) => p,
            Err(e) => {
                return Err(e);
            },
        };
        Ok((Header { slot, previous, tx_root, producer }, p4))
    }
}

pub open spec fn enc_tx_fn() -> spec_fn(TxV) -> Seq<u8> {
    |t: TxV| enc_tx(t)
}

pub open spec fn dec_tx_fn() -> spec_fn(Seq<u8>) -> Option<(TxV, int)> {
    |s: Seq<u8>| dec_tx(s)
}

pub open spec fn tx_codable_fn() -> spec_fn(TxV) -> bool {
    |t: TxV| tx_codable(t)
}

pub open spec fn enc_tx_list(items: Seq<TxV>) -> Seq<u8> {
    enc_list(items, enc_tx_fn())
}

pub open spec fn dec_tx_list(s: Seq<u8>) -> Option<(Seq<TxV>, int)> {
    dec_list(s, dec_tx_fn())
}

pub proof fn lemma_dec_enc_tx_list(items: Seq<TxV>, rest: Seq<u8>)
    requires
        items.len() <= u64::MAX,
        forall|i: int| 0 <= i < items.len() ==> tx_codable(#[trigger] items[i]),
    ensures
        dec_tx_list(enc_tx_list(items) + rest) == Some(
            (items, enc_tx_list(items).len() as int),
        ),
{
    assert forall|x: TxV, r: Seq<u8>| tx_codable_fn()(x) implies #[trigger] dec_tx_fn()(
        enc_tx_fn()(x) + r,
    ) == Some((x, enc_tx_fn()(x).len() as int)) by {
        lemma_dec_enc_tx(x, r);
    }
    assert(forall|i: int| 0 <= i < items.len() ==> tx_codable_fn()(#[trigger] items[i]));
    lemma_dec_enc_list(items, rest, enc_tx_fn(), dec_tx_fn(), tx_codable_fn());
}

/// Encode an ordered transaction list.
pub fn encode_tx_list(items: &Vec<Transaction>, out: &mut Vec<u8>)
    ensures
        final(out)@ == old(out)@ + enc_tx_list(txs_view(items@)),
{
    encode_varint(items.len() as u64, out);
    let ghost base = out@;
    let ghost views = txs_view(items@);
    let mut i: usize = 0;
    proof {
        assert(views.take(0) =~= Seq::<TxV>::empty());
        assert(out@ =~= base + enc_list_items(views.take(0), enc_tx_fn()));
    }
    while i < items.len()
        invariant
            i <= items@.len(),
            views == txs_view(items@),
            out@ == base + enc_list_items(views.take(i as int), enc_tx_fn()),
        decreases items@.len() - i,
    {
        items[i].encode(out);
        proof {
            assert(views.take(i + 1) =~= views.take(i as int).push(items@[i as int]@));
            lemma_enc_list_items_snoc(views.take(i as int), items@[i as int]@, enc_tx_fn());
            assert(enc_tx_fn()(items@[i as int]@) == enc_tx(items@[i as int]@));
            assert(out@ =~= base + enc_list_items(views.take(i + 1), enc_tx_fn()));
        }
        i = i + 1;
    }
    proof {
        assert(views.take(items@.len() as int) =~= views);
        assert(out@ =~= old(out)@ + enc_tx_list(views));
    }
}

/// Decode an ordered transaction list.
pub fn decode_tx_list(data: &Vec<u8>, pos: usize) -> (r: Result<(Vec<Transaction>, usize), Error>)
    requires
        pos <= data@.len(),
    ensures
        match r {
            Ok(p) => {
                &&& dec_tx_list(data@.skip(pos as int)) == Some((txs_view(p.0@), p.1 - pos))
                &&& pos <= p.1 <= data@.len()
            },
            Err(e) => dec_tx_list(data@.skip(pos as int)) is None && e
                == Error::MalformedEncoding,
        },
{
    let ghost s0 = data@.skip(pos as int);
    let dlen = data.len();
    let (n, mid) = match decode_varint(data, pos) {
        Ok(p) => p,
        Err(e) => {
            return Err(e);
        },
    };
    let mut items: Vec<Transaction> = Vec::new();
    let mut p = mid;
    let mut i: u64 = 0;
    proof {
        assert(txs_view(items@) =~= Seq::<TxV>::empty());
        assert(data@.skip(mid as int) =~= s0.skip(mid - pos));
    }
    while i < n
        invariant
            i <= n,
            pos <= mid <= p <= data@.len(),
            data@.len() == dlen,
            dec_varint(s0) == Some((n, mid - pos)),
            s0 == data@.skip(pos as int),
            data@.skip(mid as int) == s0.skip(mid - pos),
            match dec_list_items(data@.skip(p as int), (n - i) as nat, dec_tx_fn()) {
                Some(d) => dec_list_items(data@.skip(mid as int), n as nat, dec_tx_fn())
                    == Some((txs_view(items@) + d.0, (p - mid) + d.1)),
                None => dec_list_items(data@.skip(mid as int), n as nat, dec_tx_fn()) is None,
            },
        decreases n - i,
    {
        let ghost before = txs_view(items@);
        match Transaction::decode(data, p) {
            Err(e) => {
                proof {
                    assert(dec_tx_fn()(data@.skip(p as int)) is None);
                }
                return Err(e);
            },
            Ok((t, p2)) => {
                proof {
                    assert(dec_tx_fn()(data@.skip(p as int)) == Some((t@, p2 - p)));
                    assert(data@.skip(p as int).skip(p2 - p) =~= data@.skip(p2 as int));
                    assert(txs_view(items@.push(t)) =~~= before.push(t@));
                    match dec_list_items(data@.skip(p2 as int), (n - i - 1) as nat, dec_tx_fn())
                        {
                        Some(d2) => {
                            assert((before + (seq![t@] + d2.0)) =~= (before.push(t@) + d2.0));
                        },
                        None => {},
                    }
                }
                items.push(t);
                p = p2;
                i = i + 1;
            },
        }
    }
    proof {
        assert(dec_list_items(data@.skip(p as int), 0, dec_tx_fn()) == Some(
            (Seq::<TxV>::empty(), 0int),
        ));
        assert(txs_view(items@) + Seq::<TxV>::empty() =~= txs_view(items@));
    }
    Ok((items, p))
}

pub open spec fn enc_block(b: BlockV) -> Seq<u8> {
    enc_header(b.header) + enc_tx(b.proposal) + enc_tx_list(b.txs)
}

pub open spec fn dec_block(s: Seq<u8>) -> Option<(BlockV, int)> {
    match dec_header(s) {
        None => None,
        Some((header, k1)) => match dec_tx(s.skip(k1)) {
            None => None,
            Some((proposal, k2)) => match dec_tx_list(s.skip(k1 + k2)) {
                None => None,
                Some((txs, k3)) => Some((BlockV { header, proposal, txs }, k1 + k2 + k3)),
            },
        },
    }
}

pub open spec fn block_codable(b: BlockV) -> bool {
    &&& tx_codable(b.proposal)
    &&& b.txs.len() <= u64::MAX
    &&& forall|i: int| 0 <= i < b.txs.len() ==> tx_codable(#[trigger] b.txs[i])
}

pub proof fn lemma_dec_enc_block(b: BlockV, rest: Seq<u8>)
    requires
        block_codable(b),
    ensures
        dec_block(enc_block(b) + rest) == Some((b, enc_block(b).len() as int)),
{
    let s = enc_block(b) + rest;
    let e1 = enc_header(b.header);
    let e2 = enc_tx(b.proposal);
    let e3 = enc_tx_list(b.txs);
    assert(s =~= e1 + (e2 + (e3 + rest)));
    lemma_dec_enc_header(b.header, e2 + (e3 + rest));
    assert(s.skip(e1.len() as int) =~= e2 + (e3 + rest));
    lemma_dec_enc_tx(b.proposal, e3 + rest);
    assert(s.skip(e1.len() as int + e2.len() as int) =~= e3 + rest);
    lemma_dec_enc_tx_list(b.txs, rest);
}

impl Block {
    /// Encode as header, proposal transaction, then user transactions.
    pub fn encode(&self, out: &mut Vec<u8>) -> (n: usize)
        ensures
            final(out)@ == old(out)@ + enc_block(self@),
            n == enc_block(self@).len(),
    {
        let before = out.len();
        self.header.encode(out);
        self.proposal.encode(out);
        encode_tx_list(&self.txs, out);
        proof {
            assert(out@ =~= old(out)@ + enc_block(self@));
        }
        out.len() - before
    }

    /// Decode a block.
    #[verifier::rlimit(60)]
    #[verifier::spinoff_prover]
    pub fn decode(data: &Vec<u8>, pos: usize) -> (r: Result<(Block, usize), Error>)
        requires
            pos <= data@.len(),
        ensures
            match r {
                Ok(p) => {
                    &&& dec_block(data@.skip(pos as int)) == Some((p.0@, p.1 - pos))
                    &&& pos <= p.1 <= data@.len()
                },
                Err(e) => dec_block(data@.skip(pos as int)) is None && e
                    == Error::MalformedEncoding,
            },
    {
        let ghost s = data@.skip(pos as int);
        let (header, p1) = match Header::decode(data, pos) {
            Ok(p) => p,
            Err(e) => {
                return Err(e);
            },
        };
        proof {
            assert(data@.skip(p1 as int) =~= s.skip(p1 - pos));
        }
        let (proposal, p2) = match Transaction::decode(data, p1) {
            Ok(p) => p,
            Err(e) => {
                return Err(e);
            },
        };
        proof {
            assert(data@.skip(p2 as int) =~= s.skip((p1 - pos) + (p2 - p1)));
        }
        let (txs, p3) = match decode_tx_list(data, p2) {
            Ok(p) => p,
            Err(e) => {
                return Err(e);
            },
        };
        let b = Block { header, proposal, txs };
        proof {
            assert(dec_block(s) == Some((b@, p3 - pos)));
        }
        Ok((b, p3))
    }

    /// The block's identity: the digest of its encoded header.
    pub fn blockhash(&self) -> (h: u64)
        ensures
            h == spec_block_hash(self.header),
    {
        let mut buf: Vec<u8> = Vec::new();
        self.header.encode(&mut buf);
        crate::crypto::digest_bytes(&buf)
    }
}

/// A block's content identity: the digest of its encoded header.
pub open spec fn spec_block_hash(h: Header) -> u64 {
    digest_of(enc_header(h))
}

/// The root a header commits to over an ordered transaction list: the
/// transaction identities folded left to right.
pub open spec fn spec_tx_root(txs: Seq<TxV>) -> u64
    decreases txs.len(),
{
    if txs.len() == 0 {
        crate::crypto::FOLD_SEED
    } else {
        crate::crypto::spec_mix(spec_tx_root(txs.drop_last()), spec_tx_hash(txs.last()))
    }
}

/// Fold the identities of `txs` into the header's transaction root.
pub fn compute_tx_root(txs: &Vec<Transaction>) -> (r: u64)
    ensures
        r == spec_tx_root(txs_view(txs@)),
{
    let ghost views = txs_view(txs@);
    let mut acc: u64 = crate::crypto::FOLD_SEED;
    let mut i: usize = 0;
    proof {
        assert(views.take(0) =~= Seq::<TxV>::empty());
    }
    while i < txs.len()
        invariant
            i <= txs@.len(),
            views == txs_view(txs@),
            acc == spec_tx_root(views.take(i as int)),
        decreases txs@.len() - i,
    {
        let h = txs[i].hash();
        proof {
            assert(views.take(i + 1).drop_last() =~= views.take(i as int));
            assert(views.take(i + 1).last() == views[i as int]);
        }
        acc = crate::crypto::mix(acc, h);
        i = i + 1;
    }
    proof {
        assert(views.take(txs@.len() as int) =~= views);
    }
    acc
}

/// Deep copy of a transaction.
pub fn clone_transaction(tx: &Transaction) -> (r: Transaction)
    ensures
        r@ == tx@,
{
    let mut calls: Vec<ContractCall> = Vec::new();
    let mut i: usize = 0;
    while i < tx.calls.len()
        invariant
            i <= tx.calls@.len(),
            calls@.len() == i,
            forall|k: int| 0 <= k < i ==> (#[trigger] calls@[k])@ == tx.calls@[k]@,
        decreases tx.calls@.len() - i,
    {
        calls.push(
            ContractCall {
                contract_id: tx.calls[i].contract_id,
                data: crate::bridgetree::copy_bytes(&tx.calls[i].data),
            },
        );
        i = i + 1;
    }
    let mut proofs: Vec<Vec<Proof>> = Vec::new();
    let mut j: usize = 0;
    while j < tx.proofs.len()
        invariant
            j <= tx.proofs@.len(),
            proofs@.len() == j,
            forall|k: int| 0 <= k < j ==> (#[trigger] proofs@[k])@ == tx.proofs@[k]@,
        decreases tx.proofs@.len() - j,
    {
        let row = &tx.proofs[j];
        let mut out_row: Vec<Proof> = Vec::new();
        let mut a: usize = 0;
        while a < row.len()
            invariant
                a <= row@.len(),
                out_row@ == row@.take(a as int),
            decreases row@.len() - a,
        {
            out_row.push(row[a]);
            assert(out_row@ =~= row@.take(a + 1));
            a = a + 1;
        }
        proof {
            assert(out_row@ =~= tx.proofs@[j as int]@);
        }
        proofs.push(out_row);
        j = j + 1;
    }
    let mut signatures: Vec<Vec<Signature>> = Vec::new();
    let mut m: usize = 0;
    while m < tx.signatures.len()
        invariant
            m <= tx.signatures@.len(),
            signatures@.len() == m,
            forall|k: int| 0 <= k < m ==> (#[trigger] signatures@[k])@ == tx.signatures@[k]@,
        decreases tx.signatures@.len() - m,
    {
        let row = &tx.signatures[m];
        let mut out_row: Vec<Signature> = Vec::new();
        let mut a: usize = 0;
        while a < row.len()
            invariant
                a <= row@.len(),
                out_row@ == row@.take(a as int),
            decreases row@.len() - a,
        {
            out_row.push(row[a]);
            assert(out_row@ =~= row@.take(a + 1));
            a = a + 1;
        }
        proof {
            assert(out_row@ =~= tx.signatures@[m as int]@);
        }
        signatures.push(out_row);
        m = m + 1;
    }
    let r = Transaction { calls, proofs, signatures };
    proof {
        assert(calls_view(r.calls@) =~~= calls_view(tx.calls@));
        assert(proofs_view(r.proofs@) =~~= proofs_view(tx.proofs@));
        assert(sigs_view(r.signatures@) =~~= sigs_view(tx.signatures@));
        assert(r@ =~~= tx@);
    }
    r
}

} // verus!
