//! Round-trip and operation tests for the incremental commitment tree.

use darkfi_core::bridgetree::{BridgeTree, MarkEntry, MerkleNode, NonEmptyFrontier, Position};
use darkfi_core::error::Error;

fn node(s: &str) -> MerkleNode {
    MerkleNode { bytes: s.as_bytes().to_vec() }
}

#[test]
fn serialize_desrialize_inc_merkle_tree() {
    const DEPTH: u8 = 8;

    // Fill the tree with 100 leaves
    let mut tree: BridgeTree = BridgeTree::new(DEPTH, 100);
    for i in 0..100u64 {
        tree.append(node(&format!("test{}", i))).unwrap();
        tree.mark();
        tree.checkpoint(i);
    }
    let serial_tree = tree.to_bytes();
    let deserial_tree = BridgeTree::from_bytes(&serial_tree, DEPTH).unwrap();

    // Empty tree
    let tree2: BridgeTree = BridgeTree::new(DEPTH, 100);
    let serial_tree2 = tree2.to_bytes();
    let deserial_tree2 = BridgeTree::from_bytes(&serial_tree2, DEPTH).unwrap();

    // Max leaves
    let mut tree3: BridgeTree = BridgeTree::new(DEPTH, 100);
    for i in 0..2_i32.pow(DEPTH as u32) {
        tree3.append(node(&format!("test{}", i))).unwrap();
        tree3.mark();
        tree3.checkpoint(i.try_into().unwrap());
    }
    let serial_tree3 = tree3.to_bytes();
    let deserial_tree3 = BridgeTree::from_bytes(&serial_tree3, DEPTH).unwrap();

    assert!(tree == deserial_tree);
    assert!(tree2 == deserial_tree2);
    assert!(tree3 == deserial_tree3);
}

#[test]
fn tree_full_at_capacity() {
    let mut tree = BridgeTree::new(2, 10);
    for i in 0..4u64 {
        tree.append(node(&format!("leaf{}", i))).unwrap();
    }
    assert_eq!(tree.append(node("extra")), Err(Error::TreeFull));
}

#[test]
fn rewind_restores_checkpoint_state() {
    let mut tree = BridgeTree::new(8, 10);
    tree.append(node("a")).unwrap();
    tree.mark();
    tree.checkpoint(1);
    let snapshot = tree.to_bytes();

    tree.append(node("b")).unwrap();
    tree.mark();
    assert!(tree.to_bytes() != snapshot);

    assert!(tree.rewind());
    // After the rewind the appended leaf and its mark are gone; the
    // remaining state matches the tree rebuilt from the snapshot with
    // its rewind token popped.
    let mut expected = BridgeTree::from_bytes(&snapshot, 8).unwrap();
    assert!(expected.rewind());
    assert!(tree == expected);
    // No token is left to rewind to.
    assert!(!tree.rewind());
}

#[test]
fn mark_reports_current_position() {
    let mut tree = BridgeTree::new(8, 10);
    assert_eq!(tree.mark(), None);
    tree.append(node("a")).unwrap();
    assert_eq!(tree.mark(), Some(Position(0)));
    // Marking again is a no-op reporting the same position.
    assert_eq!(tree.mark(), Some(Position(0)));
    tree.append(node("b")).unwrap();
    assert_eq!(tree.mark(), Some(Position(1)));
}

#[test]
fn decode_truncated_is_malformed() {
    let mut tree = BridgeTree::new(8, 10);
    tree.append(node("a")).unwrap();
    let mut bytes = tree.to_bytes();
    bytes.truncate(bytes.len() - 1);
    assert_eq!(BridgeTree::from_bytes(&bytes, 8).err(), Some(Error::MalformedEncoding));
}

#[test]
fn decode_bad_frontier_is_frontier_error() {
    // A frontier at position 3 must carry two ommers; this one has none.
    let bad = NonEmptyFrontier { position: Position(3), leaf: node("x"), ommers: vec![] };
    let mut bytes = Vec::new();
    bad.encode(&mut bytes);
    assert_eq!(NonEmptyFrontier::decode(&bytes, 0).err(), Some(Error::FrontierError));
}

#[test]
fn decode_inconsistent_tree_is_bridge_tree_error() {
    // A mark pointing past the bridge list does not assemble.
    let bad = BridgeTree {
        depth: 8,
        prior_bridges: vec![],
        current_bridge: None,
        saved: vec![MarkEntry { position: Position(0), bridge_index: 5 }],
        checkpoints: vec![],
        max_checkpoints: 10,
    };
    let mut bytes = Vec::new();
    bad.encode(&mut bytes);
    assert_eq!(BridgeTree::from_bytes(&bytes, 8).err(), Some(Error::BridgeTreeError));
}
