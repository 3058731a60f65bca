//! Wire encoding of the commitment tree.
//!
//! Every part of a [`BridgeTree`] encodes with the engine's wire
//! encoding: positions as 64-bit little-endian integers, addresses as a
//! level byte and an index, nodes as length-prefixed byte strings,
//! collections as counted sequences, and options as a tag byte followed
//! by the body.  Decoders validate what they rebuild: a frontier whose
//! ommers do not match its position is `FrontierError`, parts that do
//! not form a well-formed tree are `BridgeTreeError`, and anything that
//! does not decode at the byte level is `MalformedEncoding`.

use vstd::prelude::*;

use crate::bridgetree::{
    Address, BridgeOmmer, BridgeTree, BridgeV, Checkpoint, CheckpointV, FrontierV, MarkEntry,
    MerkleBridge, MerkleNode, NonEmptyFrontier, OmmerV, Position, TreeV, frontier_wf, pop_count,
    tree_wf,
};
use crate::error::Error;
use crate::serial::{
    dec_bytes, dec_list, dec_list_items, dec_u64, dec_u8, dec_varint, enc_bytes, enc_list,
    enc_list_items, enc_u64, enc_u8, enc_varint, encode_bytes, encode_u64, encode_u8,
    encode_varint, decode_bytes, decode_u64, decode_u8, decode_varint, lemma_dec_enc_bytes,
    lemma_dec_enc_list, lemma_dec_enc_u64, lemma_dec_enc_u8, lemma_dec_enc_varint,
    lemma_enc_list_items_snoc,
};

verus! {

// ---------------------------------------------------------------------
// Views of node collections
// ---------------------------------------------------------------------

pub open spec fn nodes_view(v: Seq<MerkleNode>) -> Seq<Seq<u8>> {
    v.map_values(|n: MerkleNode| n@)
}

// ---------------------------------------------------------------------
// Position
// ---------------------------------------------------------------------

pub open spec fn enc_position(p: Position) -> Seq<u8> {
    enc_u64(p.0)
}

pub open spec fn dec_position(s: Seq<u8>) -> Option<(Position, int)> {
    match dec_u64(s) {
        None => None,
        Some((v, k)) => Some((Position(v), k)),
    }
}

pub proof fn lemma_dec_enc_position(p: Position, rest: Seq<u8>)
    ensures
        dec_position(enc_position(p) + rest) == Some((p, enc_position(p).len() as int)),
        enc_position(p).len() == 8,
{
    lemma_dec_enc_u64(p.0, rest);
}

impl Position {
    /// Encode as a 64-bit little-endian integer.
    pub fn encode(&self, out: &mut Vec<u8>) -> (n: usize)
        ensures
            final(out)@ == old(out)@ + enc_position(*self),
            n == enc_position(*self).len(),
    {
        let before = out.len();
        encode_u64(self.0, out);
        out.len() - before
    }

    /// Decode from a 64-bit little-endian integer.
    pub fn decode(data: &Vec<u8>, pos: usize) -> (r: Result<(Position, usize), Error>)
        requires
            pos <= data@.len(),
        ensures
            match r {
                Ok(p) => {
                    &&& dec_position(data@.skip(pos as int)) == Some((p.0, p.1 - pos))
                    &&& pos <= p.1 <= data@.len()
                },
                Err(e) => dec_position(data@.skip(pos as int)) is None && e
                    == Error::MalformedEncoding,
            },
    {
        match decode_u64(data, pos) {
            Ok((v, p)) => Ok((Position(v), p)),
            Err(e) => Err(e),
        }
    }
}

// ---------------------------------------------------------------------
// Address
// ---------------------------------------------------------------------

pub open spec fn enc_address(a: Address) -> Seq<u8> {
    enc_u8(a.level) + enc_u64(a.index)
}

pub open spec fn dec_address(s: Seq<u8>) -> Option<(Address, int)> {
    match dec_u8(s) {
        None => None,
        Some((level, k)) => match dec_u64(s.skip(k)) {
            None => None,
            Some((index, m)) => Some((Address { level, index }, k + m)),
        },
    }
}

pub proof fn lemma_dec_enc_address(a: Address, rest: Seq<u8>)
    ensures
        dec_address(enc_address(a) + rest) == Some((a, enc_address(a).len() as int)),
        enc_address(a).len() == 9,
{
    let s = enc_address(a) + rest;
    lemma_dec_enc_u8(a.level, enc_u64(a.index) + rest);
    assert(s =~= enc_u8(a.level) + (enc_u64(a.index) + rest));
    lemma_dec_enc_u64(a.index, rest);
    assert(s.skip(1) =~= enc_u64(a.index) + rest);
}

impl Address {
    /// Encode as the level byte followed by the index.
    pub fn encode(&self, out: &mut Vec<u8>) -> (n: usize)
        ensures
            final(out)@ == old(out)@ + enc_address(*self),
            n == enc_address(*self).len(),
    {
        let before = out.len();
        encode_u8(self.level, out);
        encode_u64(self.index, out);
        proof {
            assert(out@ =~= old(out)@ + enc_address(*self));
        }
        out.len() - before
    }

    /// Decode a level byte followed by an index.
    pub fn decode(data: &Vec<u8>, pos: usize) -> (r: Result<(Address, usize), Error>)
        requires
            pos <= data@.len(),
        ensures
            match r {
                Ok(p) => {
                    &&& dec_address(data@.skip(pos as int)) == Some((p.0, p.1 - pos))
                    &&& pos <= p.1 <= data@.len()
                },
                Err(e) => dec_address(data@.skip(pos as int)) is None && e
                    == Error::MalformedEncoding,
            },
    {
        let ghost s = data@.skip(pos as int);
        let (level, p1) = match decode_u8(data, pos) {
            Ok(p) => p,
            Err(e) => {
                return Err(e);
            },
        };
        proof {
            assert(data@.skip(p1 as int) =~= s.skip(p1 - pos));
        }
        let (index, p2) = match decode_u64(data, p1) {
            Ok(p) => p,
            Err(e) => {
                return Err(e);
            },
        };
        Ok((Address { level, index }, p2))
    }
}

// ---------------------------------------------------------------------
// MerkleNode
// ---------------------------------------------------------------------

pub open spec fn enc_node(n: Seq<u8>) -> Seq<u8> {
    enc_bytes(n)
}

pub open spec fn dec_node(s: Seq<u8>) -> Option<(Seq<u8>, int)> {
    dec_bytes(s)
}

pub open spec fn node_ok(n: Seq<u8>) -> bool {
    n.len() <= u64::MAX
}

impl MerkleNode {
    /// Encode as a length-prefixed byte string.
    pub fn encode(&self, out: &mut Vec<u8>) -> (n: usize)
        ensures
            final(out)@ == old(out)@ + enc_node(self@),
            n == enc_node(self@).len(),
    {
        let before = out.len();
        encode_bytes(&self.bytes, out);
        out.len() - before
    }

    /// Decode a length-prefixed byte string.
    pub fn decode(data: &Vec<u8>, pos: usize) -> (r: Result<(MerkleNode, usize), Error>)
        requires
            pos <= data@.len(),
        ensures
            match r {
                Ok(p) => {
                    &&& dec_node(data@.skip(pos as int)) == Some((p.0@, p.1 - pos))
                    &&& pos <= p.1 <= data@.len()
                },
                Err(e) => dec_node(data@.skip(pos as int)) is None && e
                    == Error::MalformedEncoding,
            },
    {
        match decode_bytes(data, pos) {
            Ok((bytes, p)) => Ok((MerkleNode { bytes }, p)),
            Err(e) => Err(e),
        }
    }
}

// ---------------------------------------------------------------------
// Node sequences
// ---------------------------------------------------------------------

pub open spec fn enc_node_fn() -> spec_fn(Seq<u8>) -> Seq<u8> {
    |n: Seq<u8>| enc_node(n)
}

pub open spec fn dec_node_fn() -> spec_fn(Seq<u8>) -> Option<(Seq<u8>, int)> {
    |s: Seq<u8>| dec_node(s)
}

pub open spec fn node_ok_fn() -> spec_fn(Seq<u8>) -> bool {
    |n: Seq<u8>| node_ok(n)
}

pub open spec fn enc_node_list(ns: Seq<Seq<u8>>) -> Seq<u8> {
    enc_list(ns, enc_node_fn())
}

pub open spec fn dec_node_list(s: Seq<u8>) -> Option<(Seq<Seq<u8>>, int)> {
    dec_list(s, dec_node_fn())
}

pub proof fn lemma_dec_enc_node_list(ns: Seq<Seq<u8>>, rest: Seq<u8>)
    requires
        ns.len() <= u64::MAX,
        forall|i: int| 0 <= i < ns.len() ==> (#[trigger] ns[i]).len() <= u64::MAX,
    ensures
        dec_node_list(enc_node_list(ns) + rest) == Some((ns, enc_node_list(ns).len() as int)),
{
    assert forall|x: Seq<u8>, r: Seq<u8>| node_ok_fn()(x) implies #[trigger] dec_node_fn()(
        enc_node_fn()(x) + r,
    ) == Some((x, enc_node_fn()(x).len() as int)) by {
        lemma_dec_enc_bytes(x, r);
    }
    assert(forall|i: int| 0 <= i < ns.len() ==> node_ok_fn()(#[trigger] ns[i]));
    lemma_dec_enc_list(ns, rest, enc_node_fn(), dec_node_fn(), node_ok_fn());
}

fn encode_node_list(items: &Vec<MerkleNode>, out: &mut Vec<u8>)
    ensures
        final(out)@ == old(out)@ + enc_node_list(nodes_view(items@)),
{
    encode_varint(items.len() as u64, out);
    let ghost base = out@;
    let ghost views = nodes_view(items@);
    let mut i: usize = 0;
    proof {
        assert(views.take(0) =~= Seq::<Seq<u8>>::empty());
        assert(out@ =~= base + enc_list_items(views.take(0), enc_node_fn()));
    }
    while i < items.len()
        invariant
            i <= items@.len(),
            views == nodes_view(items@),
            out@ == base + enc_list_items(views.take(i as int), enc_node_fn()),
        decreases items@.len() - i,
    {
        items[i].encode(out);
        proof {
            assert(views.take(i + 1) =~= views.take(i as int).push(items@[i as int]@));
            lemma_enc_list_items_snoc(views.take(i as int), items@[i as int]@, enc_node_fn());
            assert(enc_node_fn()(items@[i as int]@) == enc_node(items@[i as int]@));
            assert(out@ =~= base + enc_list_items(views.take(i + 1), enc_node_fn()));
        }
        i = i + 1;
    }
    proof {
        assert(views.take(items@.len() as int) =~= views);
        assert(out@ =~= old(out)@ + enc_node_list(views));
    }
}

fn decode_node_list(data: &Vec<u8>, pos: usize) -> (r: Result<(Vec<MerkleNode>, usize), Error>)
    requires
        pos <= data@.len(),
    ensures
        match r {
            Ok(p) => {
                &&& dec_node_list(data@.skip(pos as int)) == Some(
                    (nodes_view(p.0@), p.1 - pos),
                )
                &&& pos <= p.1 <= data@.len()
            },
            Err(e) => dec_node_list(data@.skip(pos as int)) is None && e
                == Error::MalformedEncoding,
        },
{
    let ghost s0 = data@.skip(pos as int);
    let dlen = data.len();
    let (n, mid) = match decode_varint(data, pos) {
        Ok(p) => p,
        Err(e) => {
            return Err(e);
        },
    };
    let mut items: Vec<MerkleNode> = Vec::new();
    let mut p = mid;
    let mut i: u64 = 0;
    proof {
        assert(nodes_view(items@) =~= Seq::<Seq<u8>>::empty());
        assert(data@.skip(mid as int) =~= s0.skip(mid - pos));
    }
    while i < n
        invariant
            i <= n,
            pos <= mid <= p <= data@.len(),
            data@.len() == dlen,
            dec_varint(s0) == Some((n, mid - pos)),
            s0 == data@.skip(pos as int),
            data@.skip(mid as int) == s0.skip(mid - pos),
            match dec_list_items(data@.skip(p as int), (n - i) as nat, dec_node_fn()) {
                Some(d) => dec_list_items(data@.skip(mid as int), n as nat, dec_node_fn())
                    == Some((nodes_view(items@) + d.0, (p - mid) + d.1)),
                None => dec_list_items(data@.skip(mid as int), n as nat, dec_node_fn()) is None,
            },
        decreases n - i,
    {
        let ghost before = nodes_view(items@);
        match MerkleNode::decode(data, p) {
            Err(e) => {
                proof {
                    assert(dec_node_fn()(data@.skip(p as int)) is None);
                    assert(dec_list_items(data@.skip(p as int), (n - i) as nat, dec_node_fn())
                        is None);
                }
                return Err(e);
            },
            Ok((node, p2)) => {
                proof {
                    assert(dec_node_fn()(data@.skip(p as int)) == Some((node@, p2 - p)));
                    assert(data@.skip(p as int).skip(p2 - p) =~= data@.skip(p2 as int));
                    assert(nodes_view(items@.push(node)) =~~= before.push(node@));
                    match dec_list_items(data@.skip(p2 as int), (n - i - 1) as nat, dec_node_fn()) {
                        Some(d2) => {
                            assert((before + (seq![node@] + d2.0)) =~= (before.push(node@)
                                + d2.0));
                        },
                        None => {},
                    }
                }
                items.push(node);
                p = p2;
                i = i + 1;
            },
        }
    }
    proof {
        assert(dec_list_items(data@.skip(p as int), 0, dec_node_fn()) == Some(
            (Seq::<Seq<u8>>::empty(), 0int),
        ));
        assert(nodes_view(items@) + Seq::<Seq<u8>>::empty() =~= nodes_view(items@));
        assert(s0.skip(mid - pos) =~= data@.skip(mid as int));
    }
    Ok((items, p))
}

// ---------------------------------------------------------------------
// Optional position
// ---------------------------------------------------------------------

pub open spec fn enc_opt_position(o: Option<Position>) -> Seq<u8> {
    match o {
        None => seq![0u8],
        Some(p) => seq![1u8] + enc_position(p),
    }
}

pub open spec fn dec_opt_position(s: Seq<u8>) -> Option<(Option<Position>, int)> {
    if s.len() < 1 {
        None
    } else if s[0] == 0u8 {
        Some((None, 1int))
    } else if s[0] == 1u8 {
        match dec_position(s.skip(1)) {
            None => None,
            Some((p, k)) => Some((Some(p), 1 + k)),
        }
    } else {
        None
    }
}

pub proof fn lemma_dec_enc_opt_position(o: Option<Position>, rest: Seq<u8>)
    ensures
        dec_opt_position(enc_opt_position(o) + rest) == Some(
            (o, enc_opt_position(o).len() as int),
        ),
{
    let s = enc_opt_position(o) + rest;
    match o {
        None => {
            assert(s[0] == 0u8);
        },
        Some(p) => {
            assert(s[0] == 1u8);
            assert(s.skip(1) =~= enc_position(p) + rest);
            lemma_dec_enc_position(p, rest);
        },
    }
}

fn encode_opt_position(o: &Option<Position>, out: &mut Vec<u8>)
    ensures
        final(out)@ == old(out)@ + enc_opt_position(*o),
{
    match o {
        None => {
            encode_u8(0, out);
            proof {
                assert(out@ =~= old(out)@ + enc_opt_position(*o));
            }
        },
        Some(p) => {
            encode_u8(1, out);
            p.encode(out);
            proof {
                assert(out@ =~= old(out)@ + enc_opt_position(*o));
            }
        },
    }
}

fn decode_opt_position(data: &Vec<u8>, pos: usize) -> (r: Result<
    (Option<Position>, usize),
    Error,
>)
    requires
        pos <= data@.len(),
    ensures
        match r {
            Ok(p) => {
                &&& dec_opt_position(data@.skip(pos as int)) == Some((p.0, p.1 - pos))
                &&& pos <= p.1 <= data@.len()
            },
            Err(e) => dec_opt_position(data@.skip(pos as int)) is None && e
                == Error::MalformedEncoding,
        },
{
    let ghost s = data@.skip(pos as int);
    let (tag, p1) = match decode_u8(data, pos) {
        Ok(p) => p,
        Err(e) => {
            return Err(e);
        },
    };
    if tag == 0 {
        Ok((None, p1))
    } else if tag == 1 {
        proof {
            assert(data@.skip(p1 as int) =~= s.skip(1));
        }
        match Position::decode(data, p1) {
            Ok((p, p2)) => Ok((Some(p), p2)),
            Err(e) => Err(e),
        }
    } else {
        Err(Error::MalformedEncoding)
    }
}

// ---------------------------------------------------------------------
// NonEmptyFrontier
// ---------------------------------------------------------------------

pub open spec fn enc_frontier(f: FrontierV) -> Seq<u8> {
    enc_position(f.position) + enc_node(f.leaf) + enc_node_list(f.ommers)
}

/// Field-level decode, before validation.
pub open spec fn dec_frontier_raw(s: Seq<u8>) -> Option<(FrontierV, int)> {
    match dec_position(s) {
        None => None,
        Some((position, k1)) => match dec_node(s.skip(k1)) {
            None => None,
            Some((leaf, k2)) => match dec_node_list(s.skip(k1 + k2)) {
                None => None,
                Some((ommers, k3)) => Some((FrontierV { position, leaf, ommers }, k1 + k2 + k3)),
            },
        },
    }
}

/// A decoded frontier must carry exactly one ommer per one bit of its
/// position.
pub open spec fn dec_frontier(s: Seq<u8>) -> Option<(FrontierV, int)> {
    match dec_frontier_raw(s) {
        None => None,
        Some((f, k)) => {
            if frontier_wf(f) {
                Some((f, k))
            } else {
                None
            }
        },
    }
}

pub proof fn lemma_dec_enc_frontier(f: FrontierV, rest: Seq<u8>)
    requires
        frontier_wf(f),
        f.leaf.len() <= u64::MAX,
        f.ommers.len() <= u64::MAX,
        forall|i: int| 0 <= i < f.ommers.len() ==> (#[trigger] f.ommers[i]).len() <= u64::MAX,
    ensures
        dec_frontier(enc_frontier(f) + rest) == Some((f, enc_frontier(f).len() as int)),
{
    let s = enc_frontier(f) + rest;
    let e1 = enc_position(f.position);
    let e2 = enc_node(f.leaf);
    let e3 = enc_node_list(f.ommers);
    assert(s =~= e1 + (e2 + (e3 + rest)));
    lemma_dec_enc_position(f.position, e2 + (e3 + rest));
    assert(s.skip(e1.len() as int) =~= e2 + (e3 + rest));
    lemma_dec_enc_bytes(f.leaf, e3 + rest);
    assert(s.skip(e1.len() as int).skip(e2.len() as int) =~= e3 + rest);
    assert(s.skip(e1.len() as int + e2.len() as int) =~= e3 + rest);
    lemma_dec_enc_node_list(f.ommers, rest);
}

/// Count the one bits of `x`.
pub fn count_ones(x: u64) -> (c: u64)
    ensures
        c as nat == pop_count(x as nat),
{
    let mut c: u64 = 0;
    let mut v = x;
    proof {
        lemma_pop_count_le(x as nat);
    }
    while v > 0
        invariant
            c as nat + pop_count(v as nat) == pop_count(x as nat),
            pop_count(x as nat) <= x as nat,
        decreases v,
    {
        proof {
            lemma_pop_count_le(v as nat);
            if v % 2 == 1 {
                assert(pop_count(v as nat) >= 1);
            }
        }
        c = c + v % 2;
        v = v / 2;
    }
    c
}

/// The one bits of `n` are at most `n` itself.
pub proof fn lemma_pop_count_le(n: nat)
    ensures
        pop_count(n) <= n,
    decreases n,
{
    if n > 0 {
        lemma_pop_count_le(n / 2);
    }
}

impl NonEmptyFrontier {
    /// Encode as position, leaf, then ommers.
    pub fn encode(&self, out: &mut Vec<u8>) -> (n: usize)
        ensures
            final(out)@ == old(out)@ + enc_frontier(self@),
            n == enc_frontier(self@).len(),
    {
        let before = out.len();
        self.position.encode(out);
        self.leaf.encode(out);
        encode_node_list(&self.ommers, out);
        proof {
            assert(nodes_view(self.ommers@) =~~= self@.ommers);
            assert(out@ =~= old(out)@ + enc_frontier(self@));
        }
        out.len() - before
    }

    /// Decode and validate a frontier.
    pub fn decode(data: &Vec<u8>, pos: usize) -> (r: Result<(NonEmptyFrontier, usize), Error>)
        requires
            pos <= data@.len(),
        ensures
            match r {
                Ok(p) => {
                    &&& dec_frontier(data@.skip(pos as int)) == Some((p.0@, p.1 - pos))
                    &&& frontier_wf(p.0@)
                    &&& pos <= p.1 <= data@.len()
                },
                Err(e) => {
                    &&& dec_frontier(data@.skip(pos as int)) is None
                    &&& e == (match dec_frontier_raw(data@.skip(pos as int)) {
                        Some(_) => Error::FrontierError,
                        None => Error::MalformedEncoding,
                    })
                },
            },
    {
        let ghost s = data@.skip(pos as int);
        let (position, p1) = match Position::decode(data, pos) {
            Ok(p) => p,
            Err(e) => {
                return Err(e);
            },
        };
        proof {
            assert(data@.skip(p1 as int) =~= s.skip(p1 - pos));
        }
        let (leaf, p2) = match MerkleNode::decode(data, p1) {
            Ok(p) => p,
            Err(e) => {
                return Err(e);
            },
        };
        proof {
            assert(data@.skip(p2 as int) =~= s.skip((p1 - pos) + (p2 - p1)));
        }
        let (ommers, p3) = match decode_node_list(data, p2) {
            Ok(p) => p,
            Err(e) => {
                return Err(e);
            },
        };
        let f = NonEmptyFrontier { position, leaf, ommers };
        proof {
            assert(f@.ommers =~~= nodes_view(ommers@));
            assert(dec_frontier_raw(s) == Some((f@, p3 - pos)));
        }
        let want = count_ones(f.position.0);
        if (f.ommers.len() as u64) != want {
            return Err(Error::FrontierError);
        }
        Ok((f, p3))
    }
}

// ---------------------------------------------------------------------
// Address sequences
// ---------------------------------------------------------------------

pub open spec fn enc_address_fn() -> spec_fn(Address) -> Seq<u8> {
    |a: Address| enc_address(a)
}

pub open spec fn dec_address_fn() -> spec_fn(Seq<u8>) -> Option<(Address, int)> {
    |s: Seq<u8>| dec_address(s)
}

pub open spec fn any_address_fn() -> spec_fn(Address) -> bool {
    |a: Address| true
}

pub open spec fn enc_address_list(items: Seq<Address>) -> Seq<u8> {
    enc_list(items, enc_address_fn())
}

pub open spec fn dec_address_list(s: Seq<u8>) -> Option<(Seq<Address>, int)> {
    dec_list(s, dec_address_fn())
}

pub proof fn lemma_dec_enc_address_list(items: Seq<Address>, rest: Seq<u8>)
    requires
        items.len() <= u64::MAX,
    ensures
        dec_address_list(enc_address_list(items) + rest) == Some(
            (items, enc_address_list(items).len() as int),
        ),
{
    assert forall|x: Address, r: Seq<u8>| any_address_fn()(x) implies #[trigger] dec_address_fn()(
        enc_address_fn()(x) + r,
    ) == Some((x, enc_address_fn()(x).len() as int)) by {
        lemma_dec_enc_address(x, r);
    }
    lemma_dec_enc_list(items, rest, enc_address_fn(), dec_address_fn(), any_address_fn());
}

fn encode_address_list(items: &Vec<Address>, out: &mut Vec<u8>)
    ensures
        final(out)@ == old(out)@ + enc_address_list(items@),
{
    encode_varint(items.len() as u64, out);
    let ghost base = out@;
    let mut i: usize = 0;
    proof {
        assert(items@.take(0) =~= Seq::<Address>::empty());
        assert(out@ =~= base + enc_list_items(items@.take(0), enc_address_fn()));
    }
    while i < items.len()
        invariant
            i <= items@.len(),
            out@ == base + enc_list_items(items@.take(i as int), enc_address_fn()),
        decreases items@.len() - i,
    {
        items[i].encode(out);
        proof {
            assert(items@.take(i + 1) =~= items@.take(i as int).push(items@[i as int]));
            lemma_enc_list_items_snoc(items@.take(i as int), items@[i as int], enc_address_fn());
            assert(enc_address_fn()(items@[i as int]) == enc_address(items@[i as int]));
            assert(out@ =~= base + enc_list_items(items@.take(i + 1), enc_address_fn()));
        }
        i = i + 1;
    }
    proof {
        assert(items@.take(items@.len() as int) =~= items@);
        assert(out@ =~= old(out)@ + enc_address_list(items@));
    }
}

fn decode_address_list(data: &Vec<u8>, pos: usize) -> (r: Result<(Vec<Address>, usize), Error>)
    requires
        pos <= data@.len(),
    ensures
        match r {
            Ok(p) => {
                &&& dec_address_list(data@.skip(pos as int)) == Some((p.0@, p.1 - pos))
                &&& pos <= p.1 <= data@.len()
            },
            Err(e) => dec_address_list(data@.skip(pos as int)) is None && e
                == Error::MalformedEncoding,
        },
{
    let ghost s0 = data@.skip(pos as int);
    let dlen = data.len();
    let (n, mid) = match decode_varint(data, pos) {
        Ok(p) => p,
        Err(e) => {
            return Err(e);
        },
    };
    let mut items: Vec<Address> = Vec::new();
    let mut p = mid;
    let mut i: u64 = 0;
    proof {
        assert(data@.skip(mid as int) =~= s0.skip(mid - pos));
    }
    while i < n
        invariant
            i <= n,
            pos <= mid <= p <= data@.len(),
            data@.len() == dlen,
            dec_varint(s0) == Some((n, mid - pos)),
            s0 == data@.skip(pos as int),
            data@.skip(mid as int) == s0.skip(mid - pos),
            match dec_list_items(data@.skip(p as int), (n - i) as nat, dec_address_fn()) {
                Some(d) => dec_list_items(data@.skip(mid as int), n as nat, dec_address_fn())
                    == Some((items@ + d.0, (p - mid) + d.1)),
                None => dec_list_items(data@.skip(mid as int), n as nat, dec_address_fn())
                    is None,
            },
        decreases n - i,
    {
        let ghost before = items@;
        match Address::decode(data, p) {
            Err(e) => {
                proof {
                    assert(dec_address_fn()(data@.skip(p as int)) is None);
                }
                return Err(e);
            },
            Ok((a, p2)) => {
                proof {
                    assert(dec_address_fn()(data@.skip(p as int)) == Some((a, p2 - p)));
                    assert(data@.skip(p as int).skip(p2 - p) =~= data@.skip(p2 as int));
                    match dec_list_items(
                        data@.skip(p2 as int),
                        (n - i - 1) as nat,
                        dec_address_fn(),
                    ) {
                        Some(d2) => {
                            assert((before + (seq![a] + d2.0)) =~= (before.push(a) + d2.0));
                        },
                        None => {},
                    }
                }
                items.push(a);
                p = p2;
                i = i + 1;
            },
        }
    }
    proof {
        assert(dec_list_items(data@.skip(p as int), 0, dec_address_fn()) == Some(
            (Seq::<Address>::empty(), 0int),
        ));
        assert(items@ + Seq::<Address>::empty() =~= items@);
    }
    Ok((items, p))
}

// ---------------------------------------------------------------------
// Tracked-sibling entries and their sequences
// ---------------------------------------------------------------------

pub open spec fn ommers_view(v: Seq<BridgeOmmer>) -> Seq<OmmerV> {
    v.map_values(|o: BridgeOmmer| o@)
}

pub open spec fn enc_ommer(o: OmmerV) -> Seq<u8> {
    enc_address(o.addr) + enc_node(o.node)
}

pub open spec fn dec_ommer(s: Seq<u8>) -> Option<(OmmerV, int)> {
    match dec_address(s) {
        None => None,
        Some((addr, k)) => match dec_node(s.skip(k)) {
            None => None,
            Some((node, m)) => Some((OmmerV { addr, node }, k + m)),
        },
    }
}

pub open spec fn ommer_ok(o: OmmerV) -> bool {
    o.node.len() <= u64::MAX
}

pub proof fn lemma_dec_enc_ommer(o: OmmerV, rest: Seq<u8>)
    requires
        ommer_ok(o),
    ensures
        dec_ommer(enc_ommer(o) + rest) == Some((o, enc_ommer(o).len() as int)),
{
    let s = enc_ommer(o) + rest;
    lemma_dec_enc_address(o.addr, enc_node(o.node) + rest);
    assert(s =~= enc_address(o.addr) + (enc_node(o.node) + rest));
    lemma_dec_enc_bytes(o.node, rest);
    assert(s.skip(enc_address(o.addr).len() as int) =~= enc_node(o.node) + rest);
}

fn encode_ommer(o: &BridgeOmmer, out: &mut Vec<u8>)
    ensures
        final(out)@ == old(out)@ + enc_ommer(o@),
{
    o.addr.encode(out);
    o.node.encode(out);
    proof {
        assert(out@ =~= old(out)@ + enc_ommer(o@));
    }
}

fn decode_ommer(data: &Vec<u8>, pos: usize) -> (r: Result<(BridgeOmmer, usize), Error>)
    requires
        pos <= data@.len(),
    ensures
        match r {
            Ok(p) => {
                &&& dec_ommer(data@.skip(pos as int)) == Some((p.0@, p.1 - pos))
                &&& pos <= p.1 <= data@.len()
            },
            Err(e) => dec_ommer(data@.skip(pos as int)) is None && e == Error::MalformedEncoding,
        },
{
    let ghost s = data@.skip(pos as int);
    let (addr, p1) = match Address::decode(data, pos) {
        Ok(p) => p,
        Err(e) => {
            return Err(e);
        },
    };
    proof {
        assert(data@.skip(p1 as int) =~= s.skip(p1 - pos));
    }
    let (node, p2) = match MerkleNode::decode(data, p1) {
        Ok(p) => p,
        Err(e) => {
            return Err(e);
        },
    };
    Ok((BridgeOmmer { addr, node }, p2))
}

pub open spec fn enc_ommer_fn() -> spec_fn(OmmerV) -> Seq<u8> {
    |o: OmmerV| enc_ommer(o)
}

pub open spec fn dec_ommer_fn() -> spec_fn(Seq<u8>) -> Option<(OmmerV, int)> {
    |s: Seq<u8>| dec_ommer(s)
}

pub open spec fn ommer_ok_fn() -> spec_fn(OmmerV) -> bool {
    |o: OmmerV| ommer_ok(o)
}

pub open spec fn enc_ommer_list(items: Seq<OmmerV>) -> Seq<u8> {
    enc_list(items, enc_ommer_fn())
}

pub open spec fn dec_ommer_list(s: Seq<u8>) -> Option<(Seq<OmmerV>, int)> {
    dec_list(s, dec_ommer_fn())
}

pub proof fn lemma_dec_enc_ommer_list(items: Seq<OmmerV>, rest: Seq<u8>)
    requires
        items.len() <= u64::MAX,
        forall|i: int| 0 <= i < items.len() ==> ommer_ok(#[trigger] items[i]),
    ensures
        dec_ommer_list(enc_ommer_list(items) + rest) == Some(
            (items, enc_ommer_list(items).len() as int),
        ),
{
    assert forall|x: OmmerV, r: Seq<u8>| ommer_ok_fn()(x) implies #[trigger] dec_ommer_fn()(
        enc_ommer_fn()(x) + r,
    ) == Some((x, enc_ommer_fn()(x).len() as int)) by {
        lemma_dec_enc_ommer(x, r);
    }
    assert(forall|i: int| 0 <= i < items.len() ==> ommer_ok_fn()(#[trigger] items[i]));
    lemma_dec_enc_list(items, rest, enc_ommer_fn(), dec_ommer_fn(), ommer_ok_fn());
}

fn encode_ommer_list(items: &Vec<BridgeOmmer>, out: &mut Vec<u8>)
    ensures
        final(out)@ == old(out)@ + enc_ommer_list(ommers_view(items@)),
{
    encode_varint(items.len() as u64, out);
    let ghost base = out@;
    let ghost views = ommers_view(items@);
    let mut i: usize = 0;
    proof {
        assert(views.take(0) =~= Seq::<OmmerV>::empty());
        assert(out@ =~= base + enc_list_items(views.take(0), enc_ommer_fn()));
    }
    while i < items.len()
        invariant
            i <= items@.len(),
            views == ommers_view(items@),
            out@ == base + enc_list_items(views.take(i as int), enc_ommer_fn()),
        decreases items@.len() - i,
    {
        encode_ommer(&items[i], out);
        proof {
            assert(views.take(i + 1) =~= views.take(i as int).push(items@[i as int]@));
            lemma_enc_list_items_snoc(views.take(i as int), items@[i as int]@, enc_ommer_fn());
            assert(enc_ommer_fn()(items@[i as int]@) == enc_ommer(items@[i as int]@));
            assert(out@ =~= base + enc_list_items(views.take(i + 1), enc_ommer_fn()));
        }
        i = i + 1;
    }
    proof {
        assert(views.take(items@.len() as int) =~= views);
        assert(out@ =~= old(out)@ + enc_ommer_list(views));
    }
}

fn decode_ommer_list(data: &Vec<u8>, pos: usize) -> (r: Result<(Vec<BridgeOmmer>, usize), Error>)
    requires
        pos <= data@.len(),
    ensures
        match r {
            Ok(p) => {
                &&& dec_ommer_list(data@.skip(pos as int)) == Some(
                    (ommers_view(p.0@), p.1 - pos),
                )
                &&& pos <= p.1 <= data@.len()
            },
            Err(e) => dec_ommer_list(data@.skip(pos as int)) is None && e
                == Error::MalformedEncoding,
        },
{
    let ghost s0 = data@.skip(pos as int);
    let dlen = data.len();
    let (n, mid) = match decode_varint(data, pos) {
        Ok(p) => p,
        Err(e) => {
            return Err(e);
        },
    };
    let mut items: Vec<BridgeOmmer> = Vec::new();
    let mut p = mid;
    let mut i: u64 = 0;
    proof {
        assert(ommers_view(items@) =~= Seq::<OmmerV>::empty());
        assert(data@.skip(mid as int) =~= s0.skip(mid - pos));
    }
    while i < n
        invariant
            i <= n,
            pos <= mid <= p <= data@.len(),
            data@.len() == dlen,
            dec_varint(s0) == Some((n, mid - pos)),
            s0 == data@.skip(pos as int),
            data@.skip(mid as int) == s0.skip(mid - pos),
            match dec_list_items(data@.skip(p as int), (n - i) as nat, dec_ommer_fn()) {
                Some(d) => dec_list_items(data@.skip(mid as int), n as nat, dec_ommer_fn())
                    == Some((ommers_view(items@) + d.0, (p - mid) + d.1)),
                None => dec_list_items(data@.skip(mid as int), n as nat, dec_ommer_fn()) is None,
            },
        decreases n - i,
    {
        let ghost before = ommers_view(items@);
        match decode_ommer(data, p) {
            Err(e) => {
                proof {
                    assert(dec_ommer_fn()(data@.skip(p as int)) is None);
                }
                return Err(e);
            },
            Ok((o, p2)) => {
                proof {
                    assert(dec_ommer_fn()(data@.skip(p as int)) == Some((o@, p2 - p)));
                    assert(data@.skip(p as int).skip(p2 - p) =~= data@.skip(p2 as int));
                    assert(ommers_view(items@.push(o)) =~~= before.push(o@));
                    match dec_list_items(data@.skip(p2 as int), (n - i - 1) as nat, dec_ommer_fn())
                        {
                        Some(d2) => {
                            assert((before + (seq![o@] + d2.0)) =~= (before.push(o@) + d2.0));
                        },
                        None => {},
                    }
                }
                items.push(o);
                p = p2;
                i = i + 1;
            },
        }
    }
    proof {
        assert(dec_list_items(data@.skip(p as int), 0, dec_ommer_fn()) == Some(
            (Seq::<OmmerV>::empty(), 0int),
        ));
        assert(ommers_view(items@) + Seq::<OmmerV>::empty() =~= ommers_view(items@));
    }
    Ok((items, p))
}

// ---------------------------------------------------------------------
// MerkleBridge
// ---------------------------------------------------------------------

pub open spec fn enc_bridge(b: BridgeV) -> Seq<u8> {
    enc_opt_position(b.prior_position) + enc_address_list(b.tracking) + enc_ommer_list(b.ommers)
        + enc_frontier(b.frontier)
}

pub open spec fn dec_bridge(s: Seq<u8>) -> Option<(BridgeV, int)> {
    match dec_opt_position(s) {
        None => None,
        Some((prior_position, k1)) => match dec_address_list(s.skip(k1)) {
            None => None,
            Some((tracking, k2)) => match dec_ommer_list(s.skip(k1 + k2)) {
                None => None,
                Some((ommers, k3)) => match dec_frontier(s.skip(k1 + k2 + k3)) {
                    None => None,
                    Some((frontier, k4)) => Some(
                        (BridgeV { prior_position, tracking, ommers, frontier }, k1 + k2 + k3 + k4),
                    ),
                },
            },
        },
    }
}

/// What a bridge must satisfy for its encoding to decode back to it:
/// machine-representable lengths and a well-formed frontier.
pub open spec fn bridge_codable(b: BridgeV) -> bool {
    &&& b.tracking.len() <= u64::MAX
    &&& b.ommers.len() <= u64::MAX
    &&& forall|i: int| 0 <= i < b.ommers.len() ==> ommer_ok(#[trigger] b.ommers[i])
    &&& b.frontier.leaf.len() <= u64::MAX
    &&& b.frontier.ommers.len() <= u64::MAX
    &&& forall|i: int|
        0 <= i < b.frontier.ommers.len() ==> (#[trigger] b.frontier.ommers[i]).len() <= u64::MAX
    &&& frontier_wf(b.frontier)
}

pub proof fn lemma_dec_enc_bridge(b: BridgeV, rest: Seq<u8>)
    requires
        bridge_codable(b),
    ensures
        dec_bridge(enc_bridge(b) + rest) == Some((b, enc_bridge(b).len() as int)),
{
    let s = enc_bridge(b) + rest;
    let e1 = enc_opt_position(b.prior_position);
    let e2 = enc_address_list(b.tracking);
    let e3 = enc_ommer_list(b.ommers);
    let e4 = enc_frontier(b.frontier);
    assert(s =~= e1 + (e2 + (e3 + (e4 + rest))));
    lemma_dec_enc_opt_position(b.prior_position, e2 + (e3 + (e4 + rest)));
    assert(s.skip(e1.len() as int) =~= e2 + (e3 + (e4 + rest)));
    lemma_dec_enc_address_list(b.tracking, e3 + (e4 + rest));
    assert(s.skip(e1.len() as int + e2.len() as int) =~= e3 + (e4 + rest));
    lemma_dec_enc_ommer_list(b.ommers, e4 + rest);
    assert(s.skip(e1.len() as int + e2.len() as int + e3.len() as int) =~= e4 + rest);
    lemma_dec_enc_frontier(b.frontier, rest);
}

impl MerkleBridge {
    /// Encode as prior position, tracked addresses, collected siblings,
    /// then the frontier.
    pub fn encode(&self, out: &mut Vec<u8>) -> (n: usize)
        ensures
            final(out)@ == old(out)@ + enc_bridge(self@),
            n == enc_bridge(self@).len(),
    {
        let before = out.len();
        encode_opt_position(&self.prior_position, out);
        encode_address_list(&self.tracking, out);
        encode_ommer_list(&self.ommers, out);
        self.frontier.encode(out);
        proof {
            assert(ommers_view(self.ommers@) =~~= self@.ommers);
            assert(out@ =~= old(out)@ + enc_bridge(self@));
        }
        out.len() - before
    }

    /// Decode a bridge; its frontier is validated.
    pub fn decode(data: &Vec<u8>, pos: usize) -> (r: Result<(MerkleBridge, usize), Error>)
        requires
            pos <= data@.len(),
        ensures
            match r {
                Ok(p) => {
                    &&& dec_bridge(data@.skip(pos as int)) == Some((p.0@, p.1 - pos))
                    &&& frontier_wf(p.0@.frontier)
                    &&& pos <= p.1 <= data@.len()
                },
                Err(e) => {
                    &&& dec_bridge(data@.skip(pos as int)) is None
                    &&& (e == Error::MalformedEncoding || e == Error::FrontierError)
                },
            },
    {
        let ghost s = data@.skip(pos as int);
        let (prior_position, p1) = match decode_opt_position(data, pos) {
            Ok(p) => p,
            Err(e) => {
                return Err(e);
            },
        };
        proof {
            assert(data@.skip(p1 as int) =~= s.skip(p1 - pos));
        }
        let (tracking, p2) = match decode_address_list(data, p1) {
            Ok(p) => p,
            Err(e) => {
                return Err(e);
            },
        };
        proof {
            assert(data@.skip(p2 as int) =~= s.skip((p1 - pos) + (p2 - p1)));
        }
        let (ommers, p3) = match decode_ommer_list(data, p2) {
            Ok(p) => p,
            Err(e) => {
                return Err(e);
            },
        };
        proof {
            assert(data@.skip(p3 as int) =~= s.skip((p1 - pos) + (p2 - p1) + (p3 - p2)));
        }
        let (frontier, p4) = match NonEmptyFrontier::decode(data, p3) {
            Ok(p) => p,
            Err(e) => {
                return Err(e);
            },
        };
        let b = MerkleBridge { prior_position, tracking, ommers, frontier };
        proof {
            assert(b@.ommers =~~= ommers_view(ommers@));
            assert(dec_bridge(s) == Some((b@, p4 - pos)));
        }
        Ok((b, p4))
    }
}

// ---------------------------------------------------------------------
// Optional bridge and bridge sequences
// ---------------------------------------------------------------------

pub open spec fn enc_opt_bridge(o: Option<BridgeV>) -> Seq<u8> {
    match o {
        None => seq![0u8],
        Some(b) => seq![1u8] + enc_bridge(b),
    }
}

pub open spec fn dec_opt_bridge(s: Seq<u8>) -> Option<(Option<BridgeV>, int)> {
    if s.len() < 1 {
        None
    } else if s[0] == 0u8 {
        Some((None, 1int))
    } else if s[0] == 1u8 {
        match dec_bridge(s.skip(1)) {
            None => None,
            Some((b, k)) => Some((Some(b), 1 + k)),
        }
    } else {
        None
    }
}

pub proof fn lemma_dec_enc_opt_bridge(o: Option<BridgeV>, rest: Seq<u8>)
    requires
        match o {
            Some(b) => bridge_codable(b),
            None => true,
        },
    ensures
        dec_opt_bridge(enc_opt_bridge(o) + rest) == Some((o, enc_opt_bridge(o).len() as int)),
{
    let s = enc_opt_bridge(o) + rest;
    match o {
        None => {
            assert(s[0] == 0u8);
        },
        Some(b) => {
            assert(s[0] == 1u8);
            assert(s.skip(1) =~= enc_bridge(b) + rest);
            lemma_dec_enc_bridge(b, rest);
        },
    }
}

fn encode_opt_bridge(o: &Option<MerkleBridge>, out: &mut Vec<u8>)
    ensures
        final(out)@ == old(out)@ + enc_opt_bridge(match *o {
            Some(b) => Some(b@),
            None => None,
        }),
{
    match o {
        None => {
            encode_u8(0, out);
            proof {
                assert(out@ =~= old(out)@ + seq![0u8]);
            }
        },
        Some(b) => {
            encode_u8(1, out);
            b.encode(out);
            proof {
                assert(out@ =~= old(out)@ + (seq![1u8] + enc_bridge(b@)));
            }
        },
    }
}

fn decode_opt_bridge(data: &Vec<u8>, pos: usize) -> (r: Result<
    (Option<MerkleBridge>, usize),
    Error,
>)
    requires
        pos <= data@.len(),
    ensures
        match r {
            Ok(p) => {
                &&& dec_opt_bridge(data@.skip(pos as int)) == Some(
                    (
                        match p.0 {
                            Some(b) => Some(b@),
                            None => None,
                        },
                        p.1 - pos,
                    ),
                )
                &&& match p.0 {
                    Some(b) => frontier_wf(b@.frontier),
                    None => true,
                }
                &&& pos <= p.1 <= data@.len()
            },
            Err(e) => {
                &&& dec_opt_bridge(data@.skip(pos as int)) is None
                &&& (e == Error::MalformedEncoding || e == Error::FrontierError)
            },
        },
{
    let ghost s = data@.skip(pos as int);
    let (tag, p1) = match decode_u8(data, pos) {
        Ok(p) => p,
        Err(e) => {
            return Err(e);
        },
    };
    if tag == 0 {
        Ok((None, p1))
    } else if tag == 1 {
        proof {
            assert(data@.skip(p1 as int) =~= s.skip(1));
        }
        match MerkleBridge::decode(data, p1) {
            Ok((b, p2)) => Ok((Some(b), p2)),
            Err(e) => Err(e),
        }
    } else {
        Err(Error::MalformedEncoding)
    }
}

pub open spec fn bridges_view(v: Seq<MerkleBridge>) -> Seq<BridgeV> {
    v.map_values(|b: MerkleBridge| b@)
}

pub open spec fn enc_bridge_fn() -> spec_fn(BridgeV) -> Seq<u8> {
    |b: BridgeV| enc_bridge(b)
}

pub open spec fn dec_bridge_fn() -> spec_fn(Seq<u8>) -> Option<(BridgeV, int)> {
    |s: Seq<u8>| dec_bridge(s)
}

pub open spec fn bridge_codable_fn() -> spec_fn(BridgeV) -> bool {
    |b: BridgeV| bridge_codable(b)
}

pub open spec fn enc_bridge_list(items: Seq<BridgeV>) -> Seq<u8> {
    enc_list(items, enc_bridge_fn())
}

pub open spec fn dec_bridge_list(s: Seq<u8>) -> Option<(Seq<BridgeV>, int)> {
    dec_list(s, dec_bridge_fn())
}

pub proof fn lemma_dec_enc_bridge_list(items: Seq<BridgeV>, rest: Seq<u8>)
    requires
        items.len() <= u64::MAX,
        forall|i: int| 0 <= i < items.len() ==> bridge_codable(#[trigger] items[i]),
    ensures
        dec_bridge_list(enc_bridge_list(items) + rest) == Some(
            (items, enc_bridge_list(items).len() as int),
        ),
{
    assert forall|x: BridgeV, r: Seq<u8>| bridge_codable_fn()(x) implies #[trigger] dec_bridge_fn()(
        enc_bridge_fn()(x) + r,
    ) == Some((x, enc_bridge_fn()(x).len() as int)) by {
        lemma_dec_enc_bridge(x, r);
    }
    assert(forall|i: int| 0 <= i < items.len() ==> bridge_codable_fn()(#[trigger] items[i]));
    lemma_dec_enc_list(items, rest, enc_bridge_fn(), dec_bridge_fn(), bridge_codable_fn());
}

fn encode_bridge_list(items: &Vec<MerkleBridge>, out: &mut Vec<u8>)
    ensures
        final(out)@ == old(out)@ + enc_bridge_list(bridges_view(items@)),
{
    encode_varint(items.len() as u64, out);
    let ghost base = out@;
    let ghost views = bridges_view(items@);
    let mut i: usize = 0;
    proof {
        assert(views.take(0) =~= Seq::<BridgeV>::empty());
        assert(out@ =~= base + enc_list_items(views.take(0), enc_bridge_fn()));
    }
    while i < items.len()
        invariant
            i <= items@.len(),
            views == bridges_view(items@),
            out@ == base + enc_list_items(views.take(i as int), enc_bridge_fn()),
        decreases items@.len() - i,
    {
        items[i].encode(out);
        proof {
            assert(views.take(i + 1) =~= views.take(i as int).push(items@[i as int]@));
            lemma_enc_list_items_snoc(views.take(i as int), items@[i as int]@, enc_bridge_fn());
            assert(enc_bridge_fn()(items@[i as int]@) == enc_bridge(items@[i as int]@));
            assert(out@ =~= base + enc_list_items(views.take(i + 1), enc_bridge_fn()));
        }
        i = i + 1;
    }
    proof {
        assert(views.take(items@.len() as int) =~= views);
        assert(out@ =~= old(out)@ + enc_bridge_list(views));
    }
}

fn decode_bridge_list(data: &Vec<u8>, pos: usize) -> (r: Result<(Vec<MerkleBridge>, usize), Error>)
    requires
        pos <= data@.len(),
    ensures
        match r {
            Ok(p) => {
                &&& dec_bridge_list(data@.skip(pos as int)) == Some(
                    (bridges_view(p.0@), p.1 - pos),
                )
                &&& forall|i: int|
                    0 <= i < p.0@.len() ==> frontier_wf((#[trigger] p.0@[i])@.frontier)
                &&& pos <= p.1 <= data@.len()
            },
            Err(e) => {
                &&& dec_bridge_list(data@.skip(pos as int)) is None
                &&& (e == Error::MalformedEncoding || e == Error::FrontierError)
            },
        },
{
    let ghost s0 = data@.skip(pos as int);
    let dlen = data.len();
    let (n, mid) = match decode_varint(data, pos) {
        Ok(p) => p,
        Err(e) => {
            return Err(e);
        },
    };
    let mut items: Vec<MerkleBridge> = Vec::new();
    let mut p = mid;
    let mut i: u64 = 0;
    proof {
        assert(bridges_view(items@) =~= Seq::<BridgeV>::empty());
        assert(data@.skip(mid as int) =~= s0.skip(mid - pos));
    }
    while i < n
        invariant
            i <= n,
            pos <= mid <= p <= data@.len(),
            data@.len() == dlen,
            dec_varint(s0) == Some((n, mid - pos)),
            s0 == data@.skip(pos as int),
            data@.skip(mid as int) == s0.skip(mid - pos),
            forall|k: int| 0 <= k < items@.len() ==> frontier_wf((#[trigger] items@[k])@.frontier),
            match dec_list_items(data@.skip(p as int), (n - i) as nat, dec_bridge_fn()) {
                Some(d) => dec_list_items(data@.skip(mid as int), n as nat, dec_bridge_fn())
                    == Some((bridges_view(items@) + d.0, (p - mid) + d.1)),
                None => dec_list_items(data@.skip(mid as int), n as nat, dec_bridge_fn()) is None,
            },
        decreases n - i,
    {
        let ghost before = bridges_view(items@);
        match MerkleBridge::decode(data, p) {
            Err(e) => {
                proof {
                    assert(dec_bridge_fn()(data@.skip(p as int)) is None);
                }
                return Err(e);
            },
            Ok((b, p2)) => {
                proof {
                    assert(dec_bridge_fn()(data@.skip(p as int)) == Some((b@, p2 - p)));
                    assert(data@.skip(p as int).skip(p2 - p) =~= data@.skip(p2 as int));
                    assert(bridges_view(items@.push(b)) =~~= before.push(b@));
                    match dec_list_items(data@.skip(p2 as int), (n - i - 1) as nat, dec_bridge_fn())
                        {
                        Some(d2) => {
                            assert((before + (seq![b@] + d2.0)) =~= (before.push(b@) + d2.0));
                        },
                        None => {},
                    }
                }
                items.push(b);
                p = p2;
                i = i + 1;
            },
        }
    }
    proof {
        assert(dec_list_items(data@.skip(p as int), 0, dec_bridge_fn()) == Some(
            (Seq::<BridgeV>::empty(), 0int),
        ));
        assert(bridges_view(items@) + Seq::<BridgeV>::empty() =~= bridges_view(items@));
    }
    Ok((items, p))
}

// ---------------------------------------------------------------------
// Position sequences
// ---------------------------------------------------------------------

pub open spec fn enc_position_fn() -> spec_fn(Position) -> Seq<u8> {
    |p: Position| enc_position(p)
}

pub open spec fn dec_position_fn() -> spec_fn(Seq<u8>) -> Option<(Position, int)> {
    |s: Seq<u8>| dec_position(s)
}

pub open spec fn any_position_fn() -> spec_fn(Position) -> bool {
    |p: Position| true
}

pub open spec fn enc_position_list(items: Seq<Position>) -> Seq<u8> {
    enc_list(items, enc_position_fn())
}

pub open spec fn dec_position_list(s: Seq<u8>) -> Option<(Seq<Position>, int)> {
    dec_list(s, dec_position_fn())
}

pub proof fn lemma_dec_enc_position_list(items: Seq<Position>, rest: Seq<u8>)
    requires
        items.len() <= u64::MAX,
    ensures
        dec_position_list(enc_position_list(items) + rest) == Some(
            (items, enc_position_list(items).len() as int),
        ),
{
    assert forall|x: Position, r: Seq<u8>| any_position_fn()(x) implies #[trigger] dec_position_fn()(
        enc_position_fn()(x) + r,
    ) == Some((x, enc_position_fn()(x).len() as int)) by {
        lemma_dec_enc_position(x, r);
    }
    lemma_dec_enc_list(items, rest, enc_position_fn(), dec_position_fn(), any_position_fn());
}

fn encode_position_list(items: &Vec<Position>, out: &mut Vec<u8>)
    ensures
        final(out)@ == old(out)@ + enc_position_list(items@),
{
    encode_varint(items.len() as u64, out);
    let ghost base = out@;
    let mut i: usize = 0;
    proof {
        assert(items@.take(0) =~= Seq::<Position>::empty());
        assert(out@ =~= base + enc_list_items(items@.take(0), enc_position_fn()));
    }
    while i < items.len()
        invariant
            i <= items@.len(),
            out@ == base + enc_list_items(items@.take(i as int), enc_position_fn()),
        decreases items@.len() - i,
    {
        items[i].encode(out);
        proof {
            assert(items@.take(i + 1) =~= items@.take(i as int).push(items@[i as int]));
            lemma_enc_list_items_snoc(items@.take(i as int), items@[i as int], enc_position_fn());
            assert(enc_position_fn()(items@[i as int]) == enc_position(items@[i as int]));
            assert(out@ =~= base + enc_list_items(items@.take(i + 1), enc_position_fn()));
        }
        i = i + 1;
    }
    proof {
        assert(items@.take(items@.len() as int) =~= items@);
        assert(out@ =~= old(out)@ + enc_position_list(items@));
    }
}

fn decode_position_list(data: &Vec<u8>, pos: usize) -> (r: Result<(Vec<Position>, usize), Error>)
    requires
        pos <= data@.len(),
    ensures
        match r {
            Ok(p) => {
                &&& dec_position_list(data@.skip(pos as int)) == Some((p.0@, p.1 - pos))
                &&& pos <= p.1 <= data@.len()
            },
            Err(e) => dec_position_list(data@.skip(pos as int)) is None && e
                == Error::MalformedEncoding,
        },
{
    let ghost s0 = data@.skip(pos as int);
    let dlen = data.len();
    let (n, mid) = match decode_varint(data, pos) {
        Ok(p) => p,
        Err(e) => {
            return Err(e);
        },
    };
    let mut items: Vec<Position> = Vec::new();
    let mut p = mid;
    let mut i: u64 = 0;
    proof {
        assert(data@.skip(mid as int) =~= s0.skip(mid - pos));
    }
    while i < n
        invariant
            i <= n,
            pos <= mid <= p <= data@.len(),
            data@.len() == dlen,
            dec_varint(s0) == Some((n, mid - pos)),
            s0 == data@.skip(pos as int),
            data@.skip(mid as int) == s0.skip(mid - pos),
            match dec_list_items(data@.skip(p as int), (n - i) as nat, dec_position_fn()) {
                Some(d) => dec_list_items(data@.skip(mid as int), n as nat, dec_position_fn())
                    == Some((items@ + d.0, (p - mid) + d.1)),
                None => dec_list_items(data@.skip(mid as int), n as nat, dec_position_fn())
                    is None,
            },
        decreases n - i,
    {
        let ghost before = items@;
        match Position::decode(data, p) {
            Err(e) => {
                proof {
                    assert(dec_position_fn()(data@.skip(p as int)) is None);
                }
                return Err(e);
            },
            Ok((x, p2)) => {
                proof {
                    assert(dec_position_fn()(data@.skip(p as int)) == Some((x, p2 - p)));
                    assert(data@.skip(p as int).skip(p2 - p) =~= data@.skip(p2 as int));
                    match dec_list_items(
                        data@.skip(p2 as int),
                        (n - i - 1) as nat,
                        dec_position_fn(),
                    ) {
                        Some(d2) => {
                            assert((before + (seq![x] + d2.0)) =~= (before.push(x) + d2.0));
                        },
                        None => {},
                    }
                }
                items.push(x);
                p = p2;
                i = i + 1;
            },
        }
    }
    proof {
        assert(dec_list_items(data@.skip(p as int), 0, dec_position_fn()) == Some(
            (Seq::<Position>::empty(), 0int),
        ));
        assert(items@ + Seq::<Position>::empty() =~= items@);
    }
    Ok((items, p))
}

// ---------------------------------------------------------------------
// Retained marks
// ---------------------------------------------------------------------

pub open spec fn enc_mark(m: MarkEntry) -> Seq<u8> {
    enc_u64(m.position.0) + enc_u64(m.bridge_index)
}

pub open spec fn dec_mark(s: Seq<u8>) -> Option<(MarkEntry, int)> {
    match dec_u64(s) {
        None => None,
        Some((p, k)) => match dec_u64(s.skip(k)) {
            None => None,
            Some((idx, m)) => Some(
                (MarkEntry { position: Position(p), bridge_index: idx }, k + m),
            ),
        },
    }
}

pub proof fn lemma_dec_enc_mark(m: MarkEntry, rest: Seq<u8>)
    ensures
        dec_mark(enc_mark(m) + rest) == Some((m, enc_mark(m).len() as int)),
{
    let s = enc_mark(m) + rest;
    lemma_dec_enc_u64(m.position.0, enc_u64(m.bridge_index) + rest);
    assert(s =~= enc_u64(m.position.0) + (enc_u64(m.bridge_index) + rest));
    lemma_dec_enc_u64(m.bridge_index, rest);
    assert(s.skip(8) =~= enc_u64(m.bridge_index) + rest);
}

fn encode_mark(m: &MarkEntry, out: &mut Vec<u8>)
    ensures
        final(out)@ == old(out)@ + enc_mark(*m),
{
    encode_u64(m.position.0, out);
    encode_u64(m.bridge_index, out);
    proof {
        assert(out@ =~= old(out)@ + enc_mark(*m));
    }
}

fn decode_mark(data: &Vec<u8>, pos: usize) -> (r: Result<(MarkEntry, usize), Error>)
    requires
        pos <= data@.len(),
    ensures
        match r {
            Ok(p) => {
                &&& dec_mark(data@.skip(pos as int)) == Some((p.0, p.1 - pos))
                &&& pos <= p.1 <= data@.len()
            },
            Err(e) => dec_mark(data@.skip(pos as int)) is None && e == Error::MalformedEncoding,
        },
{
    let ghost s = data@.skip(pos as int);
    let (pv, p1) = match decode_u64(data, pos) {
        Ok(p) => p,
        Err(e) => {
            return Err(e);
        },
    };
    proof {
        assert(data@.skip(p1 as int) =~= s.skip(p1 - pos));
    }
    let (idx, p2) = match decode_u64(data, p1) {
        Ok(p) => p,
        Err(e) => {
            return Err(e);
        },
    };
    Ok((MarkEntry { position: Position(pv), bridge_index: idx }, p2))
}

pub open spec fn enc_mark_fn() -> spec_fn(MarkEntry) -> Seq<u8> {
    |m: MarkEntry| enc_mark(m)
}

pub open spec fn dec_mark_fn() -> spec_fn(Seq<u8>) -> Option<(MarkEntry, int)> {
    |s: Seq<u8>| dec_mark(s)
}

pub open spec fn any_mark_fn() -> spec_fn(MarkEntry) -> bool {
    |m: MarkEntry| true
}

pub open spec fn enc_mark_list(items: Seq<MarkEntry>) -> Seq<u8> {
    enc_list(items, enc_mark_fn())
}

pub open spec fn dec_mark_list(s: Seq<u8>) -> Option<(Seq<MarkEntry>, int)> {
    dec_list(s, dec_mark_fn())
}

pub proof fn lemma_dec_enc_mark_list(items: Seq<MarkEntry>, rest: Seq<u8>)
    requires
        items.len() <= u64::MAX,
    ensures
        dec_mark_list(enc_mark_list(items) + rest) == Some(
            (items, enc_mark_list(items).len() as int),
        ),
{
    assert forall|x: MarkEntry, r: Seq<u8>| any_mark_fn()(x) implies #[trigger] dec_mark_fn()(
        enc_mark_fn()(x) + r,
    ) == Some((x, enc_mark_fn()(x).len() as int)) by {
        lemma_dec_enc_mark(x, r);
    }
    lemma_dec_enc_list(items, rest, enc_mark_fn(), dec_mark_fn(), any_mark_fn());
}

fn encode_mark_list(items: &Vec<MarkEntry>, out: &mut Vec<u8>)
    ensures
        final(out)@ == old(out)@ + enc_mark_list(items@),
{
    encode_varint(items.len() as u64, out);
    let ghost base = out@;
    let mut i: usize = 0;
    proof {
        assert(items@.take(0) =~= Seq::<MarkEntry>::empty());
        assert(out@ =~= base + enc_list_items(items@.take(0), enc_mark_fn()));
    }
    while i < items.len()
        invariant
            i <= items@.len(),
            out@ == base + enc_list_items(items@.take(i as int), enc_mark_fn()),
        decreases items@.len() - i,
    {
        encode_mark(&items[i], out);
        proof {
            assert(items@.take(i + 1) =~= items@.take(i as int).push(items@[i as int]));
            lemma_enc_list_items_snoc(items@.take(i as int), items@[i as int], enc_mark_fn());
            assert(enc_mark_fn()(items@[i as int]) == enc_mark(items@[i as int]));
            assert(out@ =~= base + enc_list_items(items@.take(i + 1), enc_mark_fn()));
        }
        i = i + 1;
    }
    proof {
        assert(items@.take(items@.len() as int) =~= items@);
        assert(out@ =~= old(out)@ + enc_mark_list(items@));
    }
}

fn decode_mark_list(data: &Vec<u8>, pos: usize) -> (r: Result<(Vec<MarkEntry>, usize), Error>)
    requires
        pos <= data@.len(),
    ensures
        match r {
            Ok(p) => {
                &&& dec_mark_list(data@.skip(pos as int)) == Some((p.0@, p.1 - pos))
                &&& pos <= p.1 <= data@.len()
            },
            Err(e) => dec_mark_list(data@.skip(pos as int)) is None && e
                == Error::MalformedEncoding,
        },
{
    let ghost s0 = data@.skip(pos as int);
    let dlen = data.len();
    let (n, mid) = match decode_varint(data, pos) {
        Ok(p) => p,
        Err(e) => {
            return Err(e);
        },
    };
    let mut items: Vec<MarkEntry> = Vec::new();
    let mut p = mid;
    let mut i: u64 = 0;
    proof {
        assert(data@.skip(mid as int) =~= s0.skip(mid - pos));
    }
    while i < n
        invariant
            i <= n,
            pos <= mid <= p <= data@.len(),
            data@.len() == dlen,
            dec_varint(s0) == Some((n, mid - pos)),
            s0 == data@.skip(pos as int),
            data@.skip(mid as int) == s0.skip(mid - pos),
            match dec_list_items(data@.skip(p as int), (n - i) as nat, dec_mark_fn()) {
                Some(d) => dec_list_items(data@.skip(mid as int), n as nat, dec_mark_fn())
                    == Some((items@ + d.0, (p - mid) + d.1)),
                None => dec_list_items(data@.skip(mid as int), n as nat, dec_mark_fn()) is None,
            },
        decreases n - i,
    {
        let ghost before = items@;
        match decode_mark(data, p) {
            Err(e) => {
                proof {
                    assert(dec_mark_fn()(data@.skip(p as int)) is None);
                }
                return Err(e);
            },
            Ok((x, p2)) => {
                proof {
                    assert(dec_mark_fn()(data@.skip(p as int)) == Some((x, p2 - p)));
                    assert(data@.skip(p as int).skip(p2 - p) =~= data@.skip(p2 as int));
                    match dec_list_items(data@.skip(p2 as int), (n - i - 1) as nat, dec_mark_fn())
                        {
                        Some(d2) => {
                            assert((before + (seq![x] + d2.0)) =~= (before.push(x) + d2.0));
                        },
                        None => {},
                    }
                }
                items.push(x);
                p = p2;
                i = i + 1;
            },
        }
    }
    proof {
        assert(dec_list_items(data@.skip(p as int), 0, dec_mark_fn()) == Some(
            (Seq::<MarkEntry>::empty(), 0int),
        ));
        assert(items@ + Seq::<MarkEntry>::empty() =~= items@);
    }
    Ok((items, p))
}

// ---------------------------------------------------------------------
// Checkpoint
// ---------------------------------------------------------------------

pub open spec fn enc_checkpoint(c: CheckpointV) -> Seq<u8> {
    enc_u64(c.id) + enc_u64(c.bridges_len) + enc_position_list(c.marked) + enc_position_list(
        c.forgotten,
    )
}

pub open spec fn dec_checkpoint(s: Seq<u8>) -> Option<(CheckpointV, int)> {
    match dec_u64(s) {
        None => None,
        Some((id, k1)) => match dec_u64(s.skip(k1)) {
            None => None,
            Some((bridges_len, k2)) => match dec_position_list(s.skip(k1 + k2)) {
                None => None,
                Some((marked, k3)) => match dec_position_list(s.skip(k1 + k2 + k3)) {
                    None => None,
                    Some((forgotten, k4)) => Some(
                        (CheckpointV { id, bridges_len, marked, forgotten }, k1 + k2 + k3 + k4),
                    ),
                },
            },
        },
    }
}

pub open spec fn checkpoint_codable(c: CheckpointV) -> bool {
    &&& c.marked.len() <= u64::MAX
    &&& c.forgotten.len() <= u64::MAX
}

pub proof fn lemma_dec_enc_checkpoint(c: CheckpointV, rest: Seq<u8>)
    requires
        checkpoint_codable(c),
    ensures
        dec_checkpoint(enc_checkpoint(c) + rest) == Some((c, enc_checkpoint(c).len() as int)),
{
    let s = enc_checkpoint(c) + rest;
    let e1 = enc_u64(c.id);
    let e2 = enc_u64(c.bridges_len);
    let e3 = enc_position_list(c.marked);
    let e4 = enc_position_list(c.forgotten);
    assert(s =~= e1 + (e2 + (e3 + (e4 + rest))));
    lemma_dec_enc_u64(c.id, e2 + (e3 + (e4 + rest)));
    assert(s.skip(e1.len() as int) =~= e2 + (e3 + (e4 + rest)));
    lemma_dec_enc_u64(c.bridges_len, e3 + (e4 + rest));
    assert(s.skip(e1.len() as int + e2.len() as int) =~= e3 + (e4 + rest));
    lemma_dec_enc_position_list(c.marked, e4 + rest);
    assert(s.skip(e1.len() as int + e2.len() as int + e3.len() as int) =~= e4 + rest);
    lemma_dec_enc_position_list(c.forgotten, rest);
}

impl Checkpoint {
    /// Encode as id, sealed bridge count, marked positions, then
    /// forgotten positions.
    pub fn encode(&self, out: &mut Vec<u8>) -> (n: usize)
        ensures
            final(out)@ == old(out)@ + enc_checkpoint(self@),
            n == enc_checkpoint(self@).len(),
    {
        let before = out.len();
        encode_u64(self.id, out);
        encode_u64(self.bridges_len, out);
        encode_position_list(&self.marked, out);
        encode_position_list(&self.forgotten, out);
        proof {
            assert(out@ =~= old(out)@ + enc_checkpoint(self@));
        }
        out.len() - before
    }

    /// Decode a rewind token.
    pub fn decode(data: &Vec<u8>, pos: usize) -> (r: Result<(Checkpoint, usize), Error>)
        requires
            pos <= data@.len(),
        ensures
            match r {
                Ok(p) => {
                    &&& dec_checkpoint(data@.skip(pos as int)) == Some((p.0@, p.1 - pos))
                    &&& pos <= p.1 <= data@.len()
                },
                Err(e) => dec_checkpoint(data@.skip(pos as int)) is None && e
                    == Error::MalformedEncoding,
            },
    {
        let ghost s = data@.skip(pos as int);
        let (id, p1) = match decode_u64(data, pos) {
            Ok(p) => p,
            Err(e) => {
                return Err(e);
            },
        };
        proof {
            assert(data@.skip(p1 as int) =~= s.skip(p1 - pos));
        }
        let (bridges_len, p2) = match decode_u64(data, p1) {
            Ok(p) => p,
            Err(e) => {
                return Err(e);
            },
        };
        proof {
            assert(data@.skip(p2 as int) =~= s.skip((p1 - pos) + (p2 - p1)));
        }
        let (marked, p3) = match decode_position_list(data, p2) {
            Ok(p) => p,
            Err(e) => {
                return Err(e);
            },
        };
        proof {
            assert(data@.skip(p3 as int) =~= s.skip((p1 - pos) + (p2 - p1) + (p3 - p2)));
        }
        let (forgotten, p4) = match decode_position_list(data, p3) {
            Ok(p) => p,
            Err(e) => {
                return Err(e);
            },
        };
        let c = Checkpoint { id, bridges_len, marked, forgotten };
        proof {
            assert(dec_checkpoint(s) == Some((c@, p4 - pos)));
        }
        Ok((c, p4))
    }
}

// ---------------------------------------------------------------------
// Checkpoint sequences
// ---------------------------------------------------------------------

pub open spec fn checkpoints_view(v: Seq<Checkpoint>) -> Seq<CheckpointV> {
    v.map_values(|c: Checkpoint| c@)
}

pub open spec fn enc_checkpoint_fn() -> spec_fn(CheckpointV) -> Seq<u8> {
    |c: CheckpointV| enc_checkpoint(c)
}

pub open spec fn dec_checkpoint_fn() -> spec_fn(Seq<u8>) -> Option<(CheckpointV, int)> {
    |s: Seq<u8>| dec_checkpoint(s)
}

pub open spec fn checkpoint_codable_fn() -> spec_fn(CheckpointV) -> bool {
    |c: CheckpointV| checkpoint_codable(c)
}

pub open spec fn enc_checkpoint_list(items: Seq<CheckpointV>) -> Seq<u8> {
    enc_list(items, enc_checkpoint_fn())
}

pub open spec fn dec_checkpoint_list(s: Seq<u8>) -> Option<(Seq<CheckpointV>, int)> {
    dec_list(s, dec_checkpoint_fn())
}

pub proof fn lemma_dec_enc_checkpoint_list(items: Seq<CheckpointV>, rest: Seq<u8>)
    requires
        items.len() <= u64::MAX,
        forall|i: int| 0 <= i < items.len() ==> checkpoint_codable(#[trigger] items[i]),
    ensures
        dec_checkpoint_list(enc_checkpoint_list(items) + rest) == Some(
            (items, enc_checkpoint_list(items).len() as int),
        ),
{
    assert forall|x: CheckpointV, r: Seq<u8>|
        checkpoint_codable_fn()(x) implies #[trigger] dec_checkpoint_fn()(
        enc_checkpoint_fn()(x) + r,
    ) == Some((x, enc_checkpoint_fn()(x).len() as int)) by {
        lemma_dec_enc_checkpoint(x, r);
    }
    assert(forall|i: int|
        0 <= i < items.len() ==> checkpoint_codable_fn()(#[trigger] items[i]));
    lemma_dec_enc_list(items, rest, enc_checkpoint_fn(), dec_checkpoint_fn(),
        checkpoint_codable_fn());
}

fn encode_checkpoint_list(items: &Vec<Checkpoint>, out: &mut Vec<u8>)
    ensures
        final(out)@ == old(out)@ + enc_checkpoint_list(checkpoints_view(items@)),
{
    encode_varint(items.len() as u64, out);
    let ghost base = out@;
    let ghost views = checkpoints_view(items@);
    let mut i: usize = 0;
    proof {
        assert(views.take(0) =~= Seq::<CheckpointV>::empty());
        assert(out@ =~= base + enc_list_items(views.take(0), enc_checkpoint_fn()));
    }
    while i < items.len()
        invariant
            i <= items@.len(),
            views == checkpoints_view(items@),
            out@ == base + enc_list_items(views.take(i as int), enc_checkpoint_fn()),
        decreases items@.len() - i,
    {
        items[i].encode(out);
        proof {
            assert(views.take(i + 1) =~= views.take(i as int).push(items@[i as int]@));
            lemma_enc_list_items_snoc(views.take(i as int), items@[i as int]@,
                enc_checkpoint_fn());
            assert(enc_checkpoint_fn()(items@[i as int]@) == enc_checkpoint(items@[i as int]@));
            assert(out@ =~= base + enc_list_items(views.take(i + 1), enc_checkpoint_fn()));
        }
        i = i + 1;
    }
    proof {
        assert(views.take(items@.len() as int) =~= views);
        assert(out@ =~= old(out)@ + enc_checkpoint_list(views));
    }
}

fn decode_checkpoint_list(data: &Vec<u8>, pos: usize) -> (r: Result<
    (Vec<Checkpoint>, usize),
    Error,
>)
    requires
        pos <= data@.len(),
    ensures
        match r {
            Ok(p) => {
                &&& dec_checkpoint_list(data@.skip(pos as int)) == Some(
                    (checkpoints_view(p.0@), p.1 - pos),
                )
                &&& pos <= p.1 <= data@.len()
            },
            Err(e) => dec_checkpoint_list(data@.skip(pos as int)) is None && e
                == Error::MalformedEncoding,
        },
{
    let ghost s0 = data@.skip(pos as int);
    let dlen = data.len();
    let (n, mid) = match decode_varint(data, pos) {
        Ok(p) => p,
        Err(e) => {
            return Err(e);
        },
    };
    let mut items: Vec<Checkpoint> = Vec::new();
    let mut p = mid;
    let mut i: u64 = 0;
    proof {
        assert(checkpoints_view(items@) =~= Seq::<CheckpointV>::empty());
        assert(data@.skip(mid as int) =~= s0.skip(mid - pos));
    }
    while i < n
        invariant
            i <= n,
            pos <= mid <= p <= data@.len(),
            data@.len() == dlen,
            dec_varint(s0) == Some((n, mid - pos)),
            s0 == data@.skip(pos as int),
            data@.skip(mid as int) == s0.skip(mid - pos),
            match dec_list_items(data@.skip(p as int), (n - i) as nat, dec_checkpoint_fn()) {
                Some(d) => dec_list_items(data@.skip(mid as int), n as nat, dec_checkpoint_fn())
                    == Some((checkpoints_view(items@) + d.0, (p - mid) + d.1)),
                None => dec_list_items(data@.skip(mid as int), n as nat, dec_checkpoint_fn())
                    is None,
            },
        decreases n - i,
    {
        let ghost before = checkpoints_view(items@);
        match Checkpoint::decode(data, p) {
            Err(e) => {
                proof {
                    assert(dec_checkpoint_fn()(data@.skip(p as int)) is None);
                }
                return Err(e);
            },
            Ok((c, p2)) => {
                proof {
                    assert(dec_checkpoint_fn()(data@.skip(p as int)) == Some((c@, p2 - p)));
                    assert(data@.skip(p as int).skip(p2 - p) =~= data@.skip(p2 as int));
                    assert(checkpoints_view(items@.push(c)) =~~= before.push(c@));
                    match dec_list_items(
                        data@.skip(p2 as int),
                        (n - i - 1) as nat,
                        dec_checkpoint_fn(),
                    ) {
                        Some(d2) => {
                            assert((before + (seq![c@] + d2.0)) =~= (before.push(c@) + d2.0));
                        },
                        None => {},
                    }
                }
                items.push(c);
                p = p2;
                i = i + 1;
            },
        }
    }
    proof {
        assert(dec_list_items(data@.skip(p as int), 0, dec_checkpoint_fn()) == Some(
            (Seq::<CheckpointV>::empty(), 0int),
        ));
        assert(checkpoints_view(items@) + Seq::<CheckpointV>::empty() =~= checkpoints_view(
            items@,
        ));
    }
    Ok((items, p))
}

// ---------------------------------------------------------------------
// The whole tree
// ---------------------------------------------------------------------

pub open spec fn enc_tree(t: TreeV) -> Seq<u8> {
    enc_bridge_list(t.prior_bridges) + enc_opt_bridge(t.current_bridge) + enc_mark_list(t.saved)
        + enc_checkpoint_list(t.checkpoints) + enc_u64(t.max_checkpoints)
}

/// Field-level decode; the depth is a property of the tree's type, not
/// of its encoding, so it is supplied by the caller.
pub open spec fn dec_tree_fields(s: Seq<u8>) -> Option<
    ((Seq<BridgeV>, Option<BridgeV>, Seq<MarkEntry>, Seq<CheckpointV>, u64), int),
> {
    match dec_bridge_list(s) {
        None => None,
        Some((prior, k1)) => match dec_opt_bridge(s.skip(k1)) {
            None => None,
            Some((current, k2)) => match dec_mark_list(s.skip(k1 + k2)) {
                None => None,
                Some((saved, k3)) => match dec_checkpoint_list(s.skip(k1 + k2 + k3)) {
                    None => None,
                    Some((cps, k4)) => match dec_u64(s.skip(k1 + k2 + k3 + k4)) {
                        None => None,
                        Some((maxc, k5)) => Some(
                            ((prior, current, saved, cps, maxc), k1 + k2 + k3 + k4 + k5),
                        ),
                    },
                },
            },
        },
    }
}

/// Decoded parts must assemble into a well-formed tree of the given
/// depth.
pub open spec fn dec_tree(s: Seq<u8>, depth: u8) -> Option<(TreeV, int)> {
    match dec_tree_fields(s) {
        None => None,
        Some((f, k)) => {
            let t = TreeV {
                depth,
                prior_bridges: f.0,
                current_bridge: f.1,
                saved: f.2,
                checkpoints: f.3,
                max_checkpoints: f.4,
            };
            if tree_wf(t) {
                Some((t, k))
            } else {
                None
            }
        },
    }
}

/// Machine-representable lengths throughout a tree, as its encoder and
/// decoder need them.
pub open spec fn tree_codable(t: TreeV) -> bool {
    &&& t.prior_bridges.len() <= u64::MAX
    &&& forall|i: int| 0 <= i < t.prior_bridges.len() ==> bridge_codable(#[trigger] t.prior_bridges[i])
    &&& match t.current_bridge {
        Some(b) => bridge_codable(b),
        None => true,
    }
    &&& t.saved.len() <= u64::MAX
    &&& t.checkpoints.len() <= u64::MAX
    &&& forall|i: int| 0 <= i < t.checkpoints.len() ==> checkpoint_codable(#[trigger] t.checkpoints[i])
}

#[verifier::rlimit(60)]
#[verifier::spinoff_prover]
pub proof fn lemma_dec_enc_tree(t: TreeV, rest: Seq<u8>)
    requires
        tree_wf(t),
        tree_codable(t),
    ensures
        dec_tree(enc_tree(t) + rest, t.depth) == Some((t, enc_tree(t).len() as int)),
{
    let s = enc_tree(t) + rest;
    let e1 = enc_bridge_list(t.prior_bridges);
    let e2 = enc_opt_bridge(t.current_bridge);
    let e3 = enc_mark_list(t.saved);
    let e4 = enc_checkpoint_list(t.checkpoints);
    let e5 = enc_u64(t.max_checkpoints);
    assert(s =~= e1 + (e2 + (e3 + (e4 + (e5 + rest)))));
    lemma_dec_enc_bridge_list(t.prior_bridges, e2 + (e3 + (e4 + (e5 + rest))));
    assert(s.skip(e1.len() as int) =~= e2 + (e3 + (e4 + (e5 + rest))));
    lemma_dec_enc_opt_bridge(t.current_bridge, e3 + (e4 + (e5 + rest)));
    assert(s.skip(e1.len() as int + e2.len() as int) =~= e3 + (e4 + (e5 + rest)));
    lemma_dec_enc_mark_list(t.saved, e4 + (e5 + rest));
    assert(s.skip(e1.len() as int + e2.len() as int + e3.len() as int) =~= e4 + (e5 + rest));
    lemma_dec_enc_checkpoint_list(t.checkpoints, e5 + rest);
    assert(s.skip(e1.len() as int + e2.len() as int + e3.len() as int + e4.len() as int) =~= e5
        + rest);
    lemma_dec_enc_u64(t.max_checkpoints, rest);
}

/// Law: an encoded commitment tree — marks, rewind tokens and all —
/// decodes back to exactly the tree that was encoded.
pub proof fn lemma_tree_round_trip(t: TreeV)
    requires
        tree_wf(t),
        tree_codable(t),
    ensures
        dec_tree(enc_tree(t), t.depth) == Some((t, enc_tree(t).len() as int)),
{
    lemma_dec_enc_tree(t, Seq::empty());
    assert(enc_tree(t) + Seq::<u8>::empty() =~= enc_tree(t));
}

/// Whether a frontier carries exactly one ommer per one bit of its
/// position.
fn frontier_wf_check(f: &NonEmptyFrontier) -> (r: bool)
    ensures
        r == frontier_wf(f@),
{
    let want = count_ones(f.position.0);
    let got = f.ommers.len() as u64;
    proof {
        assert(f@.ommers.len() == f.ommers@.len());
    }
    got == want
}

/// Whether the parts assemble into a well-formed tree.
fn tree_wf_check(t: &BridgeTree) -> (r: bool)
    ensures
        r == tree_wf(t@),
{
    if t.depth > 63 {
        return false;
    }
    let cap = 1u64 << t.depth;
    let nprior = t.prior_bridges.len();
    let mut i: usize = 0;
    while i < nprior
        invariant
            i <= nprior,
            nprior == t.prior_bridges@.len(),
            cap == 1u64 << (t@.depth as u64),
            t@.depth <= 63,
            forall|j: int|
                0 <= j < i ==> crate::bridgetree::bridge_wf(#[trigger] t@.prior_bridges[j],
                t@.depth),
        decreases nprior - i,
    {
        let fok = frontier_wf_check(&t.prior_bridges[i].frontier);
        if !fok || t.prior_bridges[i].frontier.position.0 >= cap {
            proof {
                assert(!crate::bridgetree::bridge_wf(t@.prior_bridges[i as int], t@.depth));
            }
            return false;
        }
        proof {
            assert(crate::bridgetree::bridge_wf(t@.prior_bridges[i as int], t@.depth));
        }
        i = i + 1;
    }
    match &t.current_bridge {
        Some(b) => {
            let fok = frontier_wf_check(&b.frontier);
            if !fok || b.frontier.position.0 >= cap {
                proof {
                    assert(!crate::bridgetree::bridge_wf(t@.current_bridge->Some_0, t@.depth));
                }
                return false;
            }
        },
        None => {},
    }
    let nsaved = t.saved.len();
    let mut i2: usize = 0;
    while i2 < nsaved
        invariant
            i2 <= nsaved,
            nsaved == t.saved@.len(),
            nprior == t.prior_bridges@.len(),
            forall|j: int|
                0 <= j < i2 ==> (#[trigger] t@.saved[j]).bridge_index as nat
                    <= t@.prior_bridges.len(),
        decreases nsaved - i2,
    {
        if t.saved[i2].bridge_index > nprior as u64 {
            proof {
                assert(t@.saved[i2 as int] == t.saved@[i2 as int]);
                assert((t@.saved[i2 as int]).bridge_index as nat > t@.prior_bridges.len());
            }
            return false;
        }
        i2 = i2 + 1;
    }
    if t.checkpoints.len() as u64 > t.max_checkpoints {
        return false;
    }
    let ncps = t.checkpoints.len();
    let mut i3: usize = 0;
    while i3 < ncps
        invariant
            i3 <= ncps,
            ncps == t.checkpoints@.len(),
            nprior == t.prior_bridges@.len(),
            forall|j: int|
                0 <= j < i3 ==> (#[trigger] t@.checkpoints[j]).bridges_len as nat
                    <= t@.prior_bridges.len(),
            forall|j: int, k: int|
                #![trigger t@.checkpoints[j], t@.checkpoints[k]]
                0 <= j <= k < i3 ==> t@.checkpoints[j].bridges_len
                    <= t@.checkpoints[k].bridges_len,
        decreases ncps - i3,
    {
        if t.checkpoints[i3].bridges_len > nprior as u64 {
            proof {
                assert(t@.checkpoints[i3 as int] == t.checkpoints@[i3 as int]@);
                assert((t@.checkpoints[i3 as int]).bridges_len as nat > t@.prior_bridges.len());
            }
            return false;
        }
        if i3 > 0 {
            if t.checkpoints[i3 - 1].bridges_len > t.checkpoints[i3].bridges_len {
                proof {
                    assert(t@.checkpoints[i3 - 1] == t.checkpoints@[i3 - 1]@);
                    assert(t@.checkpoints[i3 as int] == t.checkpoints@[i3 as int]@);
                    assert(t@.checkpoints[i3 - 1].bridges_len
                        > t@.checkpoints[i3 as int].bridges_len);
                }
                return false;
            }
        }
        proof {
            assert forall|j: int, k: int|
                #![trigger t@.checkpoints[j], t@.checkpoints[k]]
                0 <= j <= k < i3 + 1 implies t@.checkpoints[j].bridges_len
                <= t@.checkpoints[k].bridges_len by {
                if k == i3 && j < i3 {
                    assert(t@.checkpoints[j].bridges_len
                        <= t@.checkpoints[i3 - 1].bridges_len);
                }
            }
        }
        i3 = i3 + 1;
    }
    true
}

impl BridgeTree {
    /// Encode as prior bridges, current bridge, marks, rewind tokens,
    /// then the checkpoint capacity.  The depth is not part of the
    /// encoding: it is fixed by the tree's place of use.
    pub fn encode(&self, out: &mut Vec<u8>) -> (n: usize)
        ensures
            final(out)@ == old(out)@ + enc_tree(self@),
            n == enc_tree(self@).len(),
    {
        let before = out.len();
        encode_bridge_list(&self.prior_bridges, out);
        encode_opt_bridge(&self.current_bridge, out);
        encode_mark_list(&self.saved, out);
        encode_checkpoint_list(&self.checkpoints, out);
        encode_u64(self.max_checkpoints, out);
        proof {
            assert(bridges_view(self.prior_bridges@) =~~= self@.prior_bridges);
            assert(checkpoints_view(self.checkpoints@) =~~= self@.checkpoints);
            assert(out@ =~= old(out)@ + enc_tree(self@));
        }
        out.len() - before
    }

    /// Decode a tree of the given depth, validating every frontier and
    /// the assembled parts.
    #[verifier::rlimit(60)]
    #[verifier::spinoff_prover]
    pub fn decode(data: &Vec<u8>, pos: usize, depth: u8) -> (r: Result<(BridgeTree, usize), Error>)
        requires
            pos <= data@.len(),
        ensures
            match r {
                Ok(p) => {
                    &&& dec_tree(data@.skip(pos as int), depth) == Some((p.0@, p.1 - pos))
                    &&& tree_wf(p.0@)
                    &&& pos <= p.1 <= data@.len()
                },
                Err(e) => {
                    &&& dec_tree(data@.skip(pos as int), depth) is None
                    &&& (e == Error::MalformedEncoding || e == Error::FrontierError || e
                        == Error::BridgeTreeError)
                },
            },
    {
        let ghost s = data@.skip(pos as int);
        let (prior_bridges, p1) = match decode_bridge_list(data, pos) {
            Ok(p) => p,
            Err(e) => {
                return Err(e);
            },
        };
        proof {
            assert(data@.skip(p1 as int) =~= s.skip(p1 - pos));
        }
        let (current_bridge, p2) = match decode_opt_bridge(data, p1) {
            Ok(p) => p,
            Err(e) => {
                return Err(e);
            },
        };
        proof {
            assert(data@.skip(p2 as int) =~= s.skip((p1 - pos) + (p2 - p1)));
        }
        let (saved, p3) = match decode_mark_list(data, p2) {
            Ok(p) => p,
            Err(e) => {
                return Err(e);
            },
        };
        proof {
            assert(data@.skip(p3 as int) =~= s.skip((p1 - pos) + (p2 - p1) + (p3 - p2)));
        }
        let (checkpoints, p4) = match decode_checkpoint_list(data, p3) {
            Ok(p) => p,
            Err(e) => {
                return Err(e);
            },
        };
        proof {
            assert(data@.skip(p4 as int) =~= s.skip(
                (p1 - pos) + (p2 - p1) + (p3 - p2) + (p4 - p3),
            ));
        }
        let (max_checkpoints, p5) = match decode_u64(data, p4) {
            Ok(p) => p,
            Err(e) => {
                return Err(e);
            },
        };
        let t = BridgeTree { depth, prior_bridges, current_bridge, saved, checkpoints,
            max_checkpoints };
        proof {
            assert(t@.prior_bridges =~~= bridges_view(t.prior_bridges@));
            assert(t@.checkpoints =~~= checkpoints_view(t.checkpoints@));
            assert(dec_tree_fields(s) matches Some(f) && f.1 == p5 - pos && f.0.0
                == t@.prior_bridges && f.0.1 == t@.current_bridge && f.0.2 == t@.saved && f.0.3
                == t@.checkpoints && f.0.4 == t@.max_checkpoints);
        }
        if !tree_wf_check(&t) {
            return Err(Error::BridgeTreeError);
        }
        Ok((t, p5))
    }

    /// The tree's full encoding as a fresh byte string.
    pub fn to_bytes(&self) -> (r: Vec<u8>)
        ensures
            r@ == enc_tree(self@),
    {
        let mut out: Vec<u8> = Vec::new();
        self.encode(&mut out);
        out
    }

    /// Rebuild a tree of the given depth from its full encoding; bytes
    /// past the encoded tree are refused.
    pub fn from_bytes(data: &Vec<u8>, depth: u8) -> (r: Result<BridgeTree, Error>)
        ensures
            match r {
                Ok(t) => dec_tree(data@, depth) == Some((t@, data@.len() as int)) && tree_wf(t@),
                Err(e) => {
                    &&& (match dec_tree(data@, depth) {
                        Some(d) => d.1 != data@.len(),
                        None => true,
                    })
                    &&& (e == Error::MalformedEncoding || e == Error::FrontierError || e
                        == Error::BridgeTreeError)
                },
            },
    {
        proof {
            assert(data@.skip(0) =~= data@);
        }
        match BridgeTree::decode(data, 0, depth) {
            Ok((t, p)) => {
                if p == data.len() {
                    Ok(t)
                } else {
                    Err(Error::MalformedEncoding)
                }
            },
            Err(e) => Err(e),
        }
    }
}

} // verus!
