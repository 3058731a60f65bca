//! Wire-encoding round trips for the domain types.

use darkfi_core::bridgetree::{Address, Checkpoint, MerkleBridge, MerkleNode, NonEmptyFrontier,
    Position};
use darkfi_core::error::Error;
use darkfi_core::serial::{decode_bytes, decode_u64, decode_varint, encode_bytes, encode_u64,
    encode_varint};
use darkfi_core::types::{Block, ContractCall, Header, Proof, Signature, Transaction};

#[test]
fn u64_round_trip_is_little_endian() {
    let mut out = Vec::new();
    encode_u64(0x0102_0304_0506_0708, &mut out);
    assert_eq!(out, vec![0x08, 0x07, 0x06, 0x05, 0x04, 0x03, 0x02, 0x01]);
    let (v, end) = decode_u64(&out, 0).unwrap();
    assert_eq!(v, 0x0102_0304_0506_0708);
    assert_eq!(end, 8);
}

#[test]
fn varint_forms() {
    let cases: Vec<(u64, Vec<u8>)> = vec![
        (0, vec![0x00]),
        (0xfc, vec![0xfc]),
        (0xfd, vec![0xfd, 0xfd, 0x00]),
        (0xffff, vec![0xfd, 0xff, 0xff]),
        (0x1_0000, vec![0xfe, 0x00, 0x00, 0x01, 0x00]),
        (0x1_0000_0000, vec![0xff, 0x00, 0x00, 0x00, 0x00, 0x01, 0x00, 0x00, 0x00]),
    ];
    for (value, bytes) in cases {
        let mut out = Vec::new();
        encode_varint(value, &mut out);
        assert_eq!(out, bytes);
        let (v, end) = decode_varint(&out, 0).unwrap();
        assert_eq!(v, value);
        assert_eq!(end, out.len());
    }
}

#[test]
fn bytes_round_trip() {
    let payload = vec![1u8, 2, 3, 4, 5];
    let mut out = Vec::new();
    encode_bytes(&payload, &mut out);
    assert_eq!(out, vec![5, 1, 2, 3, 4, 5]);
    let (v, end) = decode_bytes(&out, 0).unwrap();
    assert_eq!(v, payload);
    assert_eq!(end, out.len());
    // Truncated input does not decode.
    let short = vec![5u8, 1, 2];
    assert_eq!(decode_bytes(&short, 0).err(), Some(Error::MalformedEncoding));
}

#[test]
fn position_and_address_round_trip() {
    let mut out = Vec::new();
    Position(77).encode(&mut out);
    let (p, end) = Position::decode(&out, 0).unwrap();
    assert_eq!(p, Position(77));
    assert_eq!(end, 8);

    let mut out2 = Vec::new();
    let a = Address { level: 3, index: 41 };
    a.encode(&mut out2);
    let (a2, end2) = Address::decode(&out2, 0).unwrap();
    assert_eq!(a2, a);
    assert_eq!(end2, 9);
}

#[test]
fn frontier_bridge_checkpoint_round_trip() {
    let frontier = NonEmptyFrontier {
        position: Position(3),
        leaf: MerkleNode { bytes: vec![9, 9] },
        ommers: vec![MerkleNode { bytes: vec![1] }, MerkleNode { bytes: vec![2] }],
    };
    let mut out = Vec::new();
    frontier.encode(&mut out);
    let (f2, _) = NonEmptyFrontier::decode(&out, 0).unwrap();
    assert_eq!(f2.position, Position(3));
    assert_eq!(f2.leaf.bytes, vec![9, 9]);
    assert_eq!(f2.ommers.len(), 2);

    let bridge = MerkleBridge {
        prior_position: Some(Position(1)),
        tracking: vec![Address { level: 0, index: 2 }],
        ommers: vec![],
        frontier,
    };
    let mut out2 = Vec::new();
    bridge.encode(&mut out2);
    let (b2, _) = MerkleBridge::decode(&out2, 0).unwrap();
    assert_eq!(b2.prior_position, Some(Position(1)));
    assert_eq!(b2.tracking, vec![Address { level: 0, index: 2 }]);

    let cp = Checkpoint {
        id: 7,
        bridges_len: 2,
        marked: vec![Position(0), Position(1)],
        forgotten: vec![],
    };
    let mut out3 = Vec::new();
    cp.encode(&mut out3);
    let (c2, _) = Checkpoint::decode(&out3, 0).unwrap();
    assert_eq!(c2.id, 7);
    assert_eq!(c2.bridges_len, 2);
    assert_eq!(c2.marked, vec![Position(0), Position(1)]);
}

#[test]
fn transaction_and_block_round_trip() {
    let tx = Transaction {
        calls: vec![ContractCall { contract_id: 101, data: vec![1, 2, 3] }],
        proofs: vec![vec![Proof { payload: 11 }, Proof { payload: 12 }]],
        signatures: vec![vec![Signature { tag: 21 }]],
    };
    let mut out = Vec::new();
    tx.encode(&mut out);
    let (tx2, end) = Transaction::decode(&out, 0).unwrap();
    assert_eq!(end, out.len());
    let mut out_again = Vec::new();
    tx2.encode(&mut out_again);
    assert_eq!(out, out_again);

    let block = Block {
        header: Header { slot: 4, previous: 5, tx_root: 6, producer: 7 },
        proposal: Transaction::default(),
        txs: vec![tx2],
    };
    let mut b_out = Vec::new();
    block.encode(&mut b_out);
    let (block2, b_end) = Block::decode(&b_out, 0).unwrap();
    assert_eq!(b_end, b_out.len());
    assert_eq!(block2.header, block.header);
    let mut b_again = Vec::new();
    block2.encode(&mut b_again);
    assert_eq!(b_out, b_again);
    // The block's identity depends only on its header.
    assert_eq!(block2.blockhash(), block.blockhash());
}

#[test]
fn default_transaction_is_empty() {
    let tx = Transaction::default();
    assert!(tx.calls.is_empty());
    assert!(tx.proofs.is_empty());
    assert!(tx.signatures.is_empty());
}
