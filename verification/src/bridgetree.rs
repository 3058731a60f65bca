//! The incremental commitment tree over coin commitments.
//!
//! The tree is append-only and fixed-depth.  It is stored as a sequence
//! of *prior bridges* plus a *current bridge*; each bridge carries a
//! non-empty frontier (the rightmost position, its leaf, and the ommers
//! — subtree roots along the leftward spine).  `mark` records interest
//! in the current leaf, `checkpoint` saves a rewind token, and `rewind`
//! restores the most recent token, dropping intervening appends and
//! marks.  At most `max_checkpoints` tokens are retained; the oldest is
//! evicted first.

use vstd::prelude::*;

use crate::crypto::spec_combine_nodes;
use crate::error::Error;
use crate::serial::{enc_bytes, encode_bytes};

verus! {

// ---------------------------------------------------------------------
// Types
// ---------------------------------------------------------------------

/// Leaf index in the tree, starting at zero.
#[derive(Clone, Copy, Debug, PartialEq, Eq, Structural)]
pub struct Position(pub u64);

/// A node address: a level above the leaves and an index within it.
#[derive(Clone, Copy, Debug, PartialEq, Eq, Structural)]
pub struct Address {
    pub level: u8,
    pub index: u64,
}

/// A tree node: the bytes of a leaf or of a combined subtree root.
#[derive(Debug)]
pub struct MerkleNode {
    pub bytes: Vec<u8>,
}

/// The rightmost path of a non-empty tree: the latest leaf and the
/// roots of the complete subtrees to its left, lowest level last.
#[derive(Debug)]
pub struct NonEmptyFrontier {
    pub position: Position,
    pub leaf: MerkleNode,
    pub ommers: Vec<MerkleNode>,
}

/// A sibling node retained for a tracked address.
#[derive(Debug)]
pub struct BridgeOmmer {
    pub addr: Address,
    pub node: MerkleNode,
}

/// A frontier delta: the span between the previous bridge's frontier
/// and this bridge's own, with the addresses it tracks and the sibling
/// nodes collected for them.
#[derive(Debug)]
pub struct MerkleBridge {
    pub prior_position: Option<Position>,
    pub tracking: Vec<Address>,
    pub ommers: Vec<BridgeOmmer>,
    pub frontier: NonEmptyFrontier,
}

/// A rewind token: where the bridge list stood when it was taken, and
/// the marks made or forgotten while it was the latest token.
#[derive(Debug)]
pub struct Checkpoint {
    pub id: u64,
    pub bridges_len: u64,
    pub marked: Vec<Position>,
    pub forgotten: Vec<Position>,
}

/// A retained mark: a position and the index of the bridge holding its
/// frontier snapshot.
#[derive(Clone, Copy, Debug, PartialEq, Eq, Structural)]
pub struct MarkEntry {
    pub position: Position,
    pub bridge_index: u64,
}

/// The incremental commitment tree.
#[derive(Debug)]
pub struct BridgeTree {
    pub depth: u8,
    pub prior_bridges: Vec<MerkleBridge>,
    pub current_bridge: Option<MerkleBridge>,
    pub saved: Vec<MarkEntry>,
    pub checkpoints: Vec<Checkpoint>,
    pub max_checkpoints: u64,
}

// ---------------------------------------------------------------------
// Views
// ---------------------------------------------------------------------

#[verifier::ext_equal]
pub ghost struct FrontierV {
    pub position: Position,
    pub leaf: Seq<u8>,
    pub ommers: Seq<Seq<u8>>,
}

#[verifier::ext_equal]
pub ghost struct OmmerV {
    pub addr: Address,
    pub node: Seq<u8>,
}

#[verifier::ext_equal]
pub ghost struct BridgeV {
    pub prior_position: Option<Position>,
    pub tracking: Seq<Address>,
    pub ommers: Seq<OmmerV>,
    pub frontier: FrontierV,
}

#[verifier::ext_equal]
pub ghost struct CheckpointV {
    pub id: u64,
    pub bridges_len: u64,
    pub marked: Seq<Position>,
    pub forgotten: Seq<Position>,
}

#[verifier::ext_equal]
pub ghost struct TreeV {
    pub depth: u8,
    pub prior_bridges: Seq<BridgeV>,
    pub current_bridge: Option<BridgeV>,
    pub saved: Seq<MarkEntry>,
    pub checkpoints: Seq<CheckpointV>,
    pub max_checkpoints: u64,
}

impl View for MerkleNode {
    type V = Seq<u8>;

    open spec fn view(&self) -> Seq<u8> {
        self.bytes@
    }
}

impl View for NonEmptyFrontier {
    type V = FrontierV;

    open spec fn view(&self) -> FrontierV {
        FrontierV {
            position: self.position,
            leaf: self.leaf@,
            ommers: self.ommers@.map_values(|n: MerkleNode| n@),
        }
    }
}

impl View for BridgeOmmer {
    type V = OmmerV;

    open spec fn view(&self) -> OmmerV {
        OmmerV { addr: self.addr, node: self.node@ }
    }
}

impl View for MerkleBridge {
    type V = BridgeV;

    open spec fn view(&self) -> BridgeV {
        BridgeV {
            prior_position: self.prior_position,
            tracking: self.tracking@,
            ommers: self.ommers@.map_values(|o: BridgeOmmer| o@),
            frontier: self.frontier@,
        }
    }
}

impl View for Checkpoint {
    type V = CheckpointV;

    open spec fn view(&self) -> CheckpointV {
        CheckpointV {
            id: self.id,
            bridges_len: self.bridges_len,
            marked: self.marked@,
            forgotten: self.forgotten@,
        }
    }
}

impl View for BridgeTree {
    type V = TreeV;

    open spec fn view(&self) -> TreeV {
        TreeV {
            depth: self.depth,
            prior_bridges: self.prior_bridges@.map_values(|b: MerkleBridge| b@),
            current_bridge: match self.current_bridge {
                Some(b) => Some(b@),
                None => None,
            },
            saved: self.saved@,
            checkpoints: self.checkpoints@.map_values(|c: Checkpoint| c@),
            max_checkpoints: self.max_checkpoints,
        }
    }
}

// ---------------------------------------------------------------------
// Well-formedness
// ---------------------------------------------------------------------

/// Number of one bits of `n`: how many ommers a frontier at position
/// `n` carries.
pub open spec fn pop_count(n: nat) -> nat
    decreases n,
{
    if n == 0 {
        0
    } else {
        n % 2 + pop_count(n / 2)
    }
}

/// Number of trailing one bits of `n`: how many ommers an append at
/// position `n + 1` folds together.
pub open spec fn trailing_ones(n: nat) -> nat
    decreases n,
{
    if n % 2 == 1 {
        1 + trailing_ones(n / 2)
    } else {
        0
    }
}

pub proof fn lemma_pop_count_step(n: nat)
    ensures
        trailing_ones(n) <= pop_count(n),
        pop_count(n + 1) + trailing_ones(n) == pop_count(n) + 1,
    decreases n,
{
    if n % 2 == 1 {
        lemma_pop_count_step(n / 2);
        assert((n + 1) / 2 == n / 2 + 1);
        assert((n + 1) % 2 == 0);
    }
}

pub open spec fn frontier_wf(f: FrontierV) -> bool {
    f.ommers.len() == pop_count(f.position.0 as nat)
}

pub open spec fn bridge_wf(b: BridgeV, depth: u8) -> bool {
    &&& frontier_wf(b.frontier)
    &&& b.frontier.position.0 < (1u64 << (depth as u64))
}

pub open spec fn tree_wf(t: TreeV) -> bool {
    &&& t.depth <= 63
    &&& forall|i: int|
        0 <= i < t.prior_bridges.len() ==> bridge_wf(#[trigger] t.prior_bridges[i], t.depth)
    &&& match t.current_bridge {
        Some(b) => bridge_wf(b, t.depth),
        None => true,
    }
    &&& forall|i: int|
        0 <= i < t.saved.len() ==> (#[trigger] t.saved[i]).bridge_index as nat
            <= t.prior_bridges.len()
    &&& t.checkpoints.len() <= t.max_checkpoints as nat
    &&& forall|i: int|
        0 <= i < t.checkpoints.len() ==> (#[trigger] t.checkpoints[i]).bridges_len as nat
            <= t.prior_bridges.len()
    &&& forall|i: int, j: int|
        #![trigger t.checkpoints[i], t.checkpoints[j]]
        0 <= i <= j < t.checkpoints.len() ==> t.checkpoints[i].bridges_len
            <= t.checkpoints[j].bridges_len
}

// ---------------------------------------------------------------------
// Specification mirrors of the operations
// ---------------------------------------------------------------------

/// The node carried upward when `t` trailing subtrees complete: the
/// latest leaf folded with the last `t` ommers.
pub open spec fn carry_node(ommers: Seq<Seq<u8>>, leaf: Seq<u8>, t: nat) -> Seq<u8>
    decreases t,
{
    if t == 0 {
        leaf
    } else {
        carry_node(ommers.drop_last(), spec_combine_nodes(ommers.last(), leaf), (t - 1) as nat)
    }
}

/// The frontier after appending `leaf`.
pub open spec fn spec_frontier_append(f: FrontierV, leaf: Seq<u8>) -> FrontierV {
    let t = trailing_ones(f.position.0 as nat);
    FrontierV {
        position: Position((f.position.0 + 1) as u64),
        leaf,
        ommers: f.ommers.take(f.ommers.len() - t) + seq![carry_node(f.ommers, f.leaf, t)],
    }
}

/// The frontier the next append extends: the current bridge's, or the
/// last prior bridge's, or none when the tree is empty.
pub open spec fn tree_frontier(t: TreeV) -> Option<FrontierV> {
    match t.current_bridge {
        Some(b) => Some(b.frontier),
        None => {
            if t.prior_bridges.len() > 0 {
                Some(t.prior_bridges.last().frontier)
            } else {
                None
            }
        },
    }
}

pub open spec fn pos_in(positions: Seq<Position>, p: Position) -> bool {
    exists|i: int| 0 <= i < positions.len() && positions[i] == p
}

pub open spec fn saved_has(saved: Seq<MarkEntry>, p: Position) -> bool {
    exists|i: int| 0 <= i < saved.len() && (#[trigger] saved[i]).position == p
}

/// The tree after appending `leaf`, or `TreeFull` past `2^depth`
/// leaves.  An append onto a marked frontier first seals the current
/// bridge, so the marked snapshot stays available for rewinds.
pub open spec fn spec_append(t: TreeV, leaf: Seq<u8>) -> Result<TreeV, Error> {
    let cap = 1u64 << (t.depth as u64);
    match tree_frontier(t) {
        None => Ok(
            TreeV {
                current_bridge: Some(
                    BridgeV {
                        prior_position: None,
                        tracking: Seq::empty(),
                        ommers: Seq::empty(),
                        frontier: FrontierV {
                            position: Position(0),
                            leaf,
                            ommers: Seq::empty(),
                        },
                    },
                ),
                ..t
            },
        ),
        Some(f) => {
            if f.position.0 + 1 >= cap {
                Err(Error::TreeFull)
            } else {
                match t.current_bridge {
                    Some(b) => {
                        if saved_has(t.saved, b.frontier.position) {
                            Ok(
                                TreeV {
                                    prior_bridges: t.prior_bridges + seq![b],
                                    current_bridge: Some(
                                        BridgeV {
                                            prior_position: Some(b.frontier.position),
                                            tracking: Seq::empty(),
                                            ommers: Seq::empty(),
                                            frontier: spec_frontier_append(b.frontier, leaf),
                                        },
                                    ),
                                    ..t
                                },
                            )
                        } else {
                            Ok(
                                TreeV {
                                    current_bridge: Some(
                                        BridgeV {
                                            frontier: spec_frontier_append(b.frontier, leaf),
                                            ..b
                                        },
                                    ),
                                    ..t
                                },
                            )
                        }
                    },
                    None => Ok(
                        TreeV {
                            current_bridge: Some(
                                BridgeV {
                                    prior_position: Some(f.position),
                                    tracking: Seq::empty(),
                                    ommers: Seq::empty(),
                                    frontier: spec_frontier_append(f, leaf),
                                },
                            ),
                            ..t
                        },
                    ),
                }
            }
        },
    }
}

/// The tree after marking the current leaf, with the marked position;
/// `None` when the tree is empty.
pub open spec fn spec_mark(t: TreeV) -> (TreeV, Option<Position>) {
    match tree_frontier(t) {
        None => (t, None),
        Some(f) => {
            let p = f.position;
            if saved_has(t.saved, p) {
                (t, Some(p))
            } else {
                let idx = match t.current_bridge {
                    Some(_) => t.prior_bridges.len(),
                    None => (t.prior_bridges.len() - 1) as nat,
                };
                let cps = if t.checkpoints.len() > 0 {
                    t.checkpoints.update(
                        t.checkpoints.len() - 1,
                        CheckpointV {
                            marked: t.checkpoints.last().marked + seq![p],
                            ..t.checkpoints.last()
                        },
                    )
                } else {
                    t.checkpoints
                };
                (
                    TreeV {
                        saved: t.saved + seq![MarkEntry { position: p, bridge_index: idx as u64 }],
                        checkpoints: cps,
                        ..t
                    },
                    Some(p),
                )
            }
        },
    }
}

/// The tree after taking a checkpoint: the current bridge is sealed
/// into the prior list, the oldest token is evicted at capacity, and a
/// fresh token records the sealed length.
pub open spec fn spec_checkpoint(t: TreeV, id: u64) -> TreeV {
    if t.max_checkpoints == 0 {
        t
    } else {
        let prior2 = match t.current_bridge {
            Some(b) => t.prior_bridges + seq![b],
            None => t.prior_bridges,
        };
        let cps = if t.checkpoints.len() >= t.max_checkpoints as nat {
            t.checkpoints.skip(1)
        } else {
            t.checkpoints
        };
        TreeV {
            prior_bridges: prior2,
            current_bridge: None,
            checkpoints: cps + seq![
                CheckpointV {
                    id,
                    bridges_len: prior2.len() as u64,
                    marked: Seq::empty(),
                    forgotten: Seq::empty(),
                }
            ],
            ..t
        }
    }
}

/// The marks kept across a rewind: those not made under the popped
/// token and whose bridge survives the truncation.
pub open spec fn keep_saved(saved: Seq<MarkEntry>, marked: Seq<Position>, len: u64) -> Seq<
    MarkEntry,
>
    decreases saved.len(),
{
    if saved.len() == 0 {
        saved
    } else {
        let head = if !pos_in(marked, saved[0].position) && saved[0].bridge_index <= len {
            seq![saved[0]]
        } else {
            Seq::empty()
        };
        head + keep_saved(saved.drop_first(), marked, len)
    }
}

/// The tree after rewinding to the most recent checkpoint, and whether
/// a checkpoint was there to rewind to.
pub open spec fn spec_rewind(t: TreeV) -> (TreeV, bool) {
    if t.checkpoints.len() == 0 {
        (t, false)
    } else {
        let c = t.checkpoints.last();
        (
            TreeV {
                prior_bridges: t.prior_bridges.take(c.bridges_len as int),
                current_bridge: None,
                saved: keep_saved(t.saved, c.marked, c.bridges_len),
                checkpoints: t.checkpoints.drop_last(),
                ..t
            },
            true,
        )
    }
}

pub open spec fn empty_tree(depth: u8, max_checkpoints: u64) -> TreeV {
    TreeV {
        depth,
        prior_bridges: Seq::empty(),
        current_bridge: None,
        saved: Seq::empty(),
        checkpoints: Seq::empty(),
        max_checkpoints,
    }
}

// ---------------------------------------------------------------------
// Executable helpers
// ---------------------------------------------------------------------

pub fn copy_bytes(v: &Vec<u8>) -> (r: Vec<u8>)
    ensures
        r@ == v@,
{
    let mut r: Vec<u8> = Vec::new();
    let mut i: usize = 0;
    while i < v.len()
        invariant
            i <= v@.len(),
            r@ == v@.take(i as int),
        decreases v@.len() - i,
    {
        r.push(v[i]);
        assert(r@ =~= v@.take(i + 1));
        i = i + 1;
    }
    assert(r@ =~= v@);
    r
}

fn copy_node(n: &MerkleNode) -> (r: MerkleNode)
    ensures
        r@ == n@,
{
    MerkleNode { bytes: copy_bytes(&n.bytes) }
}

fn copy_frontier(f: &NonEmptyFrontier) -> (r: NonEmptyFrontier)
    ensures
        r@ == f@,
{
    let mut ommers: Vec<MerkleNode> = Vec::new();
    let mut i: usize = 0;
    while i < f.ommers.len()
        invariant
            i <= f.ommers@.len(),
            ommers@.len() == i,
            forall|k: int| 0 <= k < i ==> (#[trigger] ommers@[k])@ == f.ommers@[k]@,
        decreases f.ommers@.len() - i,
    {
        ommers.push(copy_node(&f.ommers[i]));
        i = i + 1;
    }
    let r = NonEmptyFrontier { position: f.position, leaf: copy_node(&f.leaf), ommers };
    proof {
        assert(r@.ommers =~~= f@.ommers);
        assert(r@ =~~= f@);
    }
    r
}

/// Combine two child nodes into their parent.
pub fn combine_nodes(a: &MerkleNode, b: &MerkleNode) -> (r: MerkleNode)
    ensures
        r@ == spec_combine_nodes(a@, b@),
{
    let mut framed: Vec<u8> = Vec::new();
    encode_bytes(&a.bytes, &mut framed);
    encode_bytes(&b.bytes, &mut framed);
    assert(framed@ =~= enc_bytes(a@) + enc_bytes(b@));
    let h = crate::crypto::digest_bytes(&framed);
    let bytes = vstd::bytes::u64_to_le_bytes(h);
    MerkleNode { bytes }
}

fn frontier_append(f: &mut NonEmptyFrontier, leaf: MerkleNode)
    requires
        frontier_wf(old(f)@),
        old(f)@.position.0 < u64::MAX,
    ensures
        final(f)@ == spec_frontier_append(old(f)@, leaf@),
        frontier_wf(final(f)@),
{
    let ghost orig = old(f)@;
    let ghost new_leaf = leaf@;
    let p = f.position.0;
    let n_ommers = f.ommers.len();
    // Count the trailing one bits of the position.
    let mut x = p;
    let mut t: usize = 0;
    proof {
        lemma_pop_count_step(p as nat);
    }
    while x % 2 == 1
        invariant
            trailing_ones(p as nat) == t + trailing_ones(x as nat),
            t <= trailing_ones(p as nat),
            trailing_ones(p as nat) <= pop_count(p as nat),
            pop_count(p as nat) == n_ommers as nat,
        decreases x,
    {
        proof {
            assert(trailing_ones(x as nat) >= 1);
        }
        x = x / 2;
        t = t + 1;
    }
    assert(t == trailing_ones(p as nat));
    let ghost tt = t as nat;
    // The old leaf becomes the carried node; the new leaf takes its place.
    let mut carry = leaf;
    core::mem::swap(&mut f.leaf, &mut carry);
    let mut j: usize = 0;
    proof {
        assert(f.ommers@.map_values(|n: MerkleNode| n@) =~~= orig.ommers.take(
            orig.ommers.len() as int,
        ));
        assert(carry@ == orig.leaf);
    }
    while j < t
        invariant
            j <= t,
            t <= orig.ommers.len(),
            f@.leaf == new_leaf,
            f.position == orig.position,
            f.ommers@.map_values(|n: MerkleNode| n@) == orig.ommers.take(
                orig.ommers.len() - j,
            ),
            carry_node(orig.ommers, orig.leaf, t as nat) == carry_node(
                f.ommers@.map_values(|n: MerkleNode| n@),
                carry@,
                (t - j) as nat,
            ),
        decreases t - j,
    {
        let ghost before = f.ommers@.map_values(|n: MerkleNode| n@);
        let om = match f.ommers.pop() {
            Some(om) => om,
            None => {
                proof {
                    assert(false);
                }
                MerkleNode { bytes: Vec::new() }
            },
        };
        proof {
            assert(f.ommers@.map_values(|n: MerkleNode| n@) =~~= before.drop_last());
            assert(om@ == before.last());
            assert(f.ommers@.map_values(|n: MerkleNode| n@) =~~= orig.ommers.take(
                orig.ommers.len() - (j + 1),
            ));
        }
        carry = combine_nodes(&om, &carry);
        j = j + 1;
    }
    proof {
        assert(carry_node(f.ommers@.map_values(|n: MerkleNode| n@), carry@, 0) == carry@);
        assert(carry@ == carry_node(orig.ommers, orig.leaf, tt));
    }
    f.ommers.push(carry);
    f.position = Position(p + 1);
    proof {
        assert(f.ommers@.map_values(|n: MerkleNode| n@) =~~= orig.ommers.take(
            orig.ommers.len() - tt,
        ) + seq![carry_node(orig.ommers, orig.leaf, tt)]);
        assert(f@.leaf == new_leaf);
        assert(f@.position == Position((orig.position.0 + 1) as u64));
        assert(f@ =~~= spec_frontier_append(orig, new_leaf));
        lemma_pop_count_step(p as nat);
    }
}

fn pos_list_contains(positions: &Vec<Position>, p: Position) -> (r: bool)
    ensures
        r == pos_in(positions@, p),
{
    let mut i: usize = 0;
    while i < positions.len()
        invariant
            i <= positions@.len(),
            forall|j: int| 0 <= j < i ==> positions@[j] != p,
        decreases positions@.len() - i,
    {
        if positions[i] == p {
            assert(positions@[i as int] == p);
            return true;
        }
        i = i + 1;
    }
    false
}

// ---------------------------------------------------------------------
// Operations
// ---------------------------------------------------------------------

impl BridgeTree {
    /// A fresh tree of the given depth retaining up to
    /// `max_checkpoints` rewind tokens.
    pub fn new(depth: u8, max_checkpoints: u64) -> (t: Self)
        requires
            depth <= 63,
        ensures
            t@ == empty_tree(depth, max_checkpoints),
            tree_wf(t@),
    {
        let t = BridgeTree {
            depth,
            prior_bridges: Vec::new(),
            current_bridge: None,
            saved: Vec::new(),
            checkpoints: Vec::new(),
            max_checkpoints,
        };
        proof {
            assert(t@ =~~= empty_tree(depth, max_checkpoints));
        }
        t
    }

    /// Whether `p` is currently marked.
    pub fn is_marked(&self, p: Position) -> (r: bool)
        ensures
            r == saved_has(self@.saved, p),
    {
        let mut i: usize = 0;
        while i < self.saved.len()
            invariant
                i <= self.saved@.len(),
                forall|j: int| 0 <= j < i ==> (#[trigger] self.saved@[j]).position != p,
            decreases self.saved@.len() - i,
        {
            if self.saved[i].position == p {
                assert(self.saved@[i as int].position == p);
                return true;
            }
            i = i + 1;
        }
        false
    }

    /// Append a leaf, or report the tree full at `2^depth` leaves.
    pub fn append(&mut self, leaf: MerkleNode) -> (r: Result<(), Error>)
        requires
            tree_wf(old(self)@),
        ensures
            tree_wf(final(self)@),
            match spec_append(old(self)@, leaf@) {
                Ok(t2) => r is Ok && final(self)@ == t2,
                Err(e) => r == Err::<(), Error>(e) && final(self)@ == old(self)@,
            },
    {
        let ghost orig = self@;
        let cap = 1u64 << self.depth;
        let mut taken: Option<MerkleBridge> = None;
        core::mem::swap(&mut self.current_bridge, &mut taken);
        match taken {
            Some(mut b) => {
                let pos = b.frontier.position;
                if pos.0 + 1 >= cap {
                    self.current_bridge = Some(b);
                    proof {
                        assert(self@ =~~= orig);
                    }
                    return Err(Error::TreeFull);
                }
                let marked = self.is_marked(pos);
                if marked {
                    let snap = MerkleBridge {
                        prior_position: b.prior_position,
                        tracking: b.tracking,
                        ommers: b.ommers,
                        frontier: copy_frontier(&b.frontier),
                    };
                    self.prior_bridges.push(snap);
                    frontier_append(&mut b.frontier, leaf);
                    self.current_bridge = Some(
                        MerkleBridge {
                            prior_position: Some(pos),
                            tracking: Vec::new(),
                            ommers: Vec::new(),
                            frontier: b.frontier,
                        },
                    );
                    proof {
                        assert(self@.prior_bridges =~~= orig.prior_bridges + seq![
                            orig.current_bridge->Some_0
                        ]);
                        assert(self@ =~~= spec_append(orig, leaf@)->Ok_0);
                        lemma_append_wf(orig, leaf@);
                    }
                } else {
                    frontier_append(&mut b.frontier, leaf);
                    self.current_bridge = Some(b);
                    proof {
                        assert(self@ =~~= spec_append(orig, leaf@)->Ok_0);
                        lemma_append_wf(orig, leaf@);
                    }
                }
                Ok(())
            },
            None => {
                if self.prior_bridges.len() > 0 {
                    let n = self.prior_bridges.len();
                    let pos = self.prior_bridges[n - 1].frontier.position;
                    proof {
                        assert(orig.prior_bridges.last() == self.prior_bridges@[n - 1]@);
                    }
                    if pos.0 + 1 >= cap {
                        proof {
                            assert(self@ =~~= orig);
                        }
                        return Err(Error::TreeFull);
                    }
                    let mut fr = copy_frontier(&self.prior_bridges[n - 1].frontier);
                    frontier_append(&mut fr, leaf);
                    self.current_bridge = Some(
                        MerkleBridge {
                            prior_position: Some(pos),
                            tracking: Vec::new(),
                            ommers: Vec::new(),
                            frontier: fr,
                        },
                    );
                    proof {
                        assert(self@ =~~= spec_append(orig, leaf@)->Ok_0);
                        lemma_append_wf(orig, leaf@);
                    }
                    Ok(())
                } else {
                    self.current_bridge = Some(
                        MerkleBridge {
                            prior_position: None,
                            tracking: Vec::new(),
                            ommers: Vec::new(),
                            frontier: NonEmptyFrontier {
                                position: Position(0),
                                leaf,
                                ommers: Vec::new(),
                            },
                        },
                    );
                    proof {
                        assert(pop_count(0) == 0);
                        assert(self@ =~~= spec_append(orig, leaf@)->Ok_0);
                        lemma_append_wf(orig, leaf@);
                    }
                    Ok(())
                }
            },
        }
    }

    /// Mark the current leaf as witnessed; its authentication data is
    /// then retained while the mark stands.
    pub fn mark(&mut self) -> (r: Option<Position>)
        requires
            tree_wf(old(self)@),
        ensures
            tree_wf(final(self)@),
            final(self)@ == spec_mark(old(self)@).0,
            r == spec_mark(old(self)@).1,
    {
        let ghost orig = self@;
        let (p, idx) = match &self.current_bridge {
            Some(b) => (b.frontier.position, self.prior_bridges.len() as u64),
            None => {
                if self.prior_bridges.len() > 0 {
                    let n = self.prior_bridges.len();
                    proof {
                        assert(orig.prior_bridges.last() == self.prior_bridges@[n - 1]@);
                    }
                    (self.prior_bridges[n - 1].frontier.position, (n - 1) as u64)
                } else {
                    return None;
                }
            },
        };
        if self.is_marked(p) {
            return Some(p);
        }
        self.saved.push(MarkEntry { position: p, bridge_index: idx });
        if self.checkpoints.len() > 0 {
            let mut c = match self.checkpoints.pop() {
                Some(c) => c,
                None => {
                    proof {
                        assert(false);
                    }
                    return None;
                },
            };
            c.marked.push(p);
            self.checkpoints.push(c);
            proof {
                let cv = self.checkpoints@.map_values(|c: Checkpoint| c@);
                let sp = spec_mark(orig).0;
                assert(cv =~~= sp.checkpoints);
                assert(self@ =~~= sp);
                lemma_mark_wf(orig);
            }
        } else {
            proof {
                assert(self@ =~~= spec_mark(orig).0);
                lemma_mark_wf(orig);
            }
        }
        Some(p)
    }

    /// Save a rewind token under `id`.  At capacity the oldest token is
    /// evicted; with a zero capacity this is a no-op.
    pub fn checkpoint(&mut self, id: u64)
        requires
            tree_wf(old(self)@),
        ensures
            tree_wf(final(self)@),
            final(self)@ == spec_checkpoint(old(self)@, id),
    {
        let ghost orig = self@;
        if self.max_checkpoints == 0 {
            proof {
                assert(self@ =~~= spec_checkpoint(orig, id));
            }
            return;
        }
        let mut taken: Option<MerkleBridge> = None;
        core::mem::swap(&mut self.current_bridge, &mut taken);
        match taken {
            Some(b) => {
                self.prior_bridges.push(b);
            },
            None => {},
        }
        if self.checkpoints.len() as u64 >= self.max_checkpoints {
            self.checkpoints.remove(0);
            proof {
                assert(self.checkpoints@.map_values(|c: Checkpoint| c@) =~~=
                    orig.checkpoints.skip(1));
            }
        }
        let sealed_len = self.prior_bridges.len();
        self.checkpoints.push(
            Checkpoint {
                id,
                bridges_len: sealed_len as u64,
                marked: Vec::new(),
                forgotten: Vec::new(),
            },
        );
        proof {
            assert(self@ =~~= spec_checkpoint(orig, id));
            assert((match orig.current_bridge {
                Some(_) => orig.prior_bridges.len() + 1,
                None => orig.prior_bridges.len(),
            }) == sealed_len as nat);
            lemma_checkpoint_wf(orig, id);
        }
    }

    /// Rewind to the most recent checkpoint, dropping the appends and
    /// marks made since; `false` when no checkpoint is retained.
    pub fn rewind(&mut self) -> (r: bool)
        requires
            tree_wf(old(self)@),
        ensures
            tree_wf(final(self)@),
            final(self)@ == spec_rewind(old(self)@).0,
            r == spec_rewind(old(self)@).1,
    {
        let ghost orig = self@;
        if self.checkpoints.len() == 0 {
            proof {
                assert(self@ =~~= spec_rewind(orig).0);
            }
            return false;
        }
        let c = match self.checkpoints.pop() {
            Some(c) => c,
            None => {
                proof {
                    assert(false);
                }
                return false;
            },
        };
        proof {
            assert(c@ == orig.checkpoints.last());
            assert(c.bridges_len as nat <= orig.prior_bridges.len());
        }
        self.prior_bridges.truncate(c.bridges_len as usize);
        let mut taken: Option<MerkleBridge> = None;
        core::mem::swap(&mut self.current_bridge, &mut taken);
        let mut kept: Vec<MarkEntry> = Vec::new();
        let mut i: usize = 0;
        proof {
            assert(self.saved@.skip(0) =~= self.saved@);
        }
        while i < self.saved.len()
            invariant
                i <= self.saved@.len(),
                keep_saved(self.saved@, c.marked@, c.bridges_len) == kept@ + keep_saved(
                    self.saved@.skip(i as int),
                    c.marked@,
                    c.bridges_len,
                ),
            decreases self.saved@.len() - i,
        {
            let e = self.saved[i];
            proof {
                assert(self.saved@.skip(i as int)[0] == e);
                assert(self.saved@.skip(i as int).drop_first() =~= self.saved@.skip(i + 1));
            }
            if !pos_list_contains(&c.marked, e.position) && e.bridge_index <= c.bridges_len {
                kept.push(e);
                proof {
                    assert(kept@ + keep_saved(self.saved@.skip(i + 1), c.marked@, c.bridges_len)
                        =~= kept@.drop_last() + (seq![e] + keep_saved(
                        self.saved@.skip(i + 1),
                        c.marked@,
                        c.bridges_len,
                    )));
                }
            } else {
                proof {
                    assert(Seq::<MarkEntry>::empty() + keep_saved(
                        self.saved@.skip(i + 1),
                        c.marked@,
                        c.bridges_len,
                    ) =~= keep_saved(self.saved@.skip(i + 1), c.marked@, c.bridges_len));
                }
            }
            i = i + 1;
        }
        proof {
            assert(self.saved@.skip(self.saved@.len() as int) =~= Seq::<MarkEntry>::empty());
            assert(kept@ + Seq::<MarkEntry>::empty() =~= kept@);
        }
        self.saved = kept;
        proof {
            let sp = spec_rewind(orig).0;
            assert(self@.prior_bridges =~~= sp.prior_bridges);
            assert(self@.checkpoints =~~= sp.checkpoints);
            assert(self@ =~~= sp);
            lemma_rewind_wf(orig);
        }
        true
    }
}

/// Every kept mark points at a surviving bridge.
pub proof fn lemma_keep_saved_bound(saved: Seq<MarkEntry>, marked: Seq<Position>, len: u64)
    ensures
        forall|i: int|
            0 <= i < keep_saved(saved, marked, len).len() ==> (#[trigger] keep_saved(
                saved,
                marked,
                len,
            )[i]).bridge_index <= len,
    decreases saved.len(),
{
    let ks = keep_saved(saved, marked, len);
    if saved.len() > 0 {
        lemma_keep_saved_bound(saved.drop_first(), marked, len);
        let rest = keep_saved(saved.drop_first(), marked, len);
        if !pos_in(marked, saved[0].position) && saved[0].bridge_index <= len {
            assert(ks =~= seq![saved[0]] + rest);
            assert forall|i: int| 0 <= i < ks.len() implies (#[trigger] ks[i]).bridge_index
                <= len by {
                if i > 0 {
                    assert(ks[i] == rest[i - 1]);
                }
            }
        } else {
            assert(ks =~= rest);
        }
    }
}

/// Appending preserves well-formedness.
pub proof fn lemma_append_wf(t: TreeV, leaf: Seq<u8>)
    requires
        tree_wf(t),
        spec_append(t, leaf) is Ok,
    ensures
        tree_wf(spec_append(t, leaf)->Ok_0),
{
    let r = spec_append(t, leaf)->Ok_0;
    let cap = 1u64 << (t.depth as u64);
    let d = t.depth;
    assert(d <= 63 ==> 1u64 << (d as u64) >= 1) by (bit_vector);
    match tree_frontier(t) {
        None => {
            assert(pop_count(0) == 0);
            assert(bridge_wf(r.current_bridge->Some_0, t.depth));
        },
        Some(f) => {
            let fa = spec_frontier_append(f, leaf);
            lemma_pop_count_step(f.position.0 as nat);
            assert(frontier_wf(fa));
            assert(fa.position.0 < cap);
            match t.current_bridge {
                Some(b) => {
                    if saved_has(t.saved, b.frontier.position) {
                        assert forall|i: int|
                            0 <= i < r.prior_bridges.len() implies bridge_wf(
                            #[trigger] r.prior_bridges[i],
                            r.depth,
                        ) by {
                            if i < t.prior_bridges.len() {
                                assert(r.prior_bridges[i] == t.prior_bridges[i]);
                            } else {
                                assert(r.prior_bridges[i] == b);
                            }
                        }
                        assert forall|i: int|
                            0 <= i < r.saved.len() implies (#[trigger] r.saved[i]).bridge_index
                            as nat <= r.prior_bridges.len() by {
                            assert(t.saved[i].bridge_index as nat <= t.prior_bridges.len());
                        }
                        assert forall|i: int|
                            0 <= i < r.checkpoints.len() implies (#[trigger] r.checkpoints[i])
                            .bridges_len as nat <= r.prior_bridges.len() by {
                            assert(t.checkpoints[i].bridges_len as nat <= t.prior_bridges.len());
                        }
                    }
                },
                None => {},
            }
        },
    }
}

/// Marking preserves well-formedness.
pub proof fn lemma_mark_wf(t: TreeV)
    requires
        tree_wf(t),
    ensures
        tree_wf(spec_mark(t).0),
{
    let r = spec_mark(t).0;
    match tree_frontier(t) {
        None => {},
        Some(f) => {
            if !saved_has(t.saved, f.position) {
                assert forall|i: int|
                    0 <= i < r.saved.len() implies (#[trigger] r.saved[i]).bridge_index as nat
                    <= r.prior_bridges.len() by {
                    if i < t.saved.len() {
                        assert(r.saved[i] == t.saved[i]);
                    }
                }
                if t.checkpoints.len() > 0 {
                    assert forall|i: int|
                        0 <= i < r.checkpoints.len() implies (#[trigger] r.checkpoints[i])
                        .bridges_len as nat <= r.prior_bridges.len() by {
                        assert(r.checkpoints[i].bridges_len == t.checkpoints[i].bridges_len);
                    }
                    assert forall|i: int, j: int|
                        #![trigger r.checkpoints[i], r.checkpoints[j]]
                        0 <= i <= j < r.checkpoints.len() implies r.checkpoints[i].bridges_len
                        <= r.checkpoints[j].bridges_len by {
                        assert(r.checkpoints[i].bridges_len == t.checkpoints[i].bridges_len);
                        assert(r.checkpoints[j].bridges_len == t.checkpoints[j].bridges_len);
                    }
                }
            }
        },
    }
}

/// Taking a checkpoint preserves well-formedness.
pub proof fn lemma_checkpoint_wf(t: TreeV, id: u64)
    requires
        tree_wf(t),
        (match t.current_bridge {
            Some(_) => t.prior_bridges.len() + 1,
            None => t.prior_bridges.len(),
        }) <= u64::MAX,
    ensures
        tree_wf(spec_checkpoint(t, id)),
{
    let r = spec_checkpoint(t, id);
    if t.max_checkpoints != 0 {
        let prior2 = match t.current_bridge {
            Some(b) => t.prior_bridges + seq![b],
            None => t.prior_bridges,
        };
        assert forall|i: int|
            0 <= i < prior2.len() implies bridge_wf(#[trigger] prior2[i], t.depth) by {
            if i < t.prior_bridges.len() {
                assert(prior2[i] == t.prior_bridges[i]);
            }
        }
        let cps = if t.checkpoints.len() >= t.max_checkpoints as nat {
            t.checkpoints.skip(1)
        } else {
            t.checkpoints
        };
        assert forall|i: int|
            0 <= i < r.checkpoints.len() implies (#[trigger] r.checkpoints[i]).bridges_len as nat
            <= r.prior_bridges.len() by {
            if i < cps.len() {
                if t.checkpoints.len() >= t.max_checkpoints as nat {
                    assert(cps[i] == t.checkpoints[i + 1]);
                } else {
                    assert(cps[i] == t.checkpoints[i]);
                }
            }
        }
        assert forall|i: int, j: int|
            #![trigger r.checkpoints[i], r.checkpoints[j]]
            0 <= i <= j < r.checkpoints.len() implies r.checkpoints[i].bridges_len
            <= r.checkpoints[j].bridges_len by {
            if j < cps.len() {
                if t.checkpoints.len() >= t.max_checkpoints as nat {
                    assert(cps[i] == t.checkpoints[i + 1]);
                    assert(cps[j] == t.checkpoints[j + 1]);
                } else {
                    assert(cps[i] == t.checkpoints[i]);
                    assert(cps[j] == t.checkpoints[j]);
                }
            } else if i < cps.len() {
                if t.checkpoints.len() >= t.max_checkpoints as nat {
                    assert(cps[i] == t.checkpoints[i + 1]);
                } else {
                    assert(cps[i] == t.checkpoints[i]);
                }
                assert(cps[i].bridges_len as nat <= t.prior_bridges.len());
            }
        }
        assert forall|i: int|
            0 <= i < r.saved.len() implies (#[trigger] r.saved[i]).bridge_index as nat
            <= r.prior_bridges.len() by {
            assert(t.saved[i].bridge_index as nat <= t.prior_bridges.len());
        }
    }
}

/// Rewinding preserves well-formedness.
pub proof fn lemma_rewind_wf(t: TreeV)
    requires
        tree_wf(t),
    ensures
        tree_wf(spec_rewind(t).0),
{
    let r = spec_rewind(t).0;
    if t.checkpoints.len() > 0 {
        let c = t.checkpoints.last();
        assert(c.bridges_len as nat <= t.prior_bridges.len());
        assert forall|i: int|
            0 <= i < r.prior_bridges.len() implies bridge_wf(#[trigger] r.prior_bridges[i],
            r.depth) by {
            assert(r.prior_bridges[i] == t.prior_bridges[i]);
        }
        lemma_keep_saved_bound(t.saved, c.marked, c.bridges_len);
        assert forall|i: int|
            0 <= i < r.checkpoints.len() implies (#[trigger] r.checkpoints[i]).bridges_len as nat
            <= r.prior_bridges.len() by {
            assert(t.checkpoints[i] == r.checkpoints[i]);
            assert(t.checkpoints[i].bridges_len <= t.checkpoints[t.checkpoints.len() - 1]
                .bridges_len);
        }
    }
}

// ---------------------------------------------------------------------
// Equality
// ---------------------------------------------------------------------

fn bytes_eq(a: &Vec<u8>, b: &Vec<u8>) -> (r: bool)
    ensures
        r == (a@ == b@),
{
    if a.len() != b.len() {
        return false;
    }
    let mut i: usize = 0;
    while i < a.len()
        invariant
            i <= a@.len(),
            a@.len() == b@.len(),
            forall|j: int| 0 <= j < i ==> a@[j] == b@[j],
        decreases a@.len() - i,
    {
        if a[i] != b[i] {
            return false;
        }
        i = i + 1;
    }
    proof {
        assert(a@ =~= b@);
    }
    true
}

fn node_eq(a: &MerkleNode, b: &MerkleNode) -> (r: bool)
    ensures
        r == (a@ == b@),
{
    bytes_eq(&a.bytes, &b.bytes)
}

fn frontier_eq(a: &NonEmptyFrontier, b: &NonEmptyFrontier) -> (r: bool)
    ensures
        r == (a@ == b@),
{
    if a.position != b.position {
        return false;
    }
    if !node_eq(&a.leaf, &b.leaf) {
        return false;
    }
    if a.ommers.len() != b.ommers.len() {
        proof {
            assert(a@.ommers.len() != b@.ommers.len());
        }
        return false;
    }
    let mut i: usize = 0;
    while i < a.ommers.len()
        invariant
            i <= a.ommers@.len(),
            a.ommers@.len() == b.ommers@.len(),
            a@.position == b@.position,
            a@.leaf == b@.leaf,
            forall|j: int| 0 <= j < i ==> (#[trigger] a.ommers@[j])@ == b.ommers@[j]@,
        decreases a.ommers@.len() - i,
    {
        if !node_eq(&a.ommers[i], &b.ommers[i]) {
            proof {
                assert(a@.ommers[i as int] != b@.ommers[i as int]);
            }
            return false;
        }
        i = i + 1;
    }
    proof {
        assert(a@.ommers =~~= b@.ommers);
        assert(a@ =~~= b@);
    }
    true
}

fn bridge_eq(a: &MerkleBridge, b: &MerkleBridge) -> (r: bool)
    ensures
        r == (a@ == b@),
{
    let prior_same = match (&a.prior_position, &b.prior_position) {
        (None, None) => true,
        (Some(x), Some(y)) => *x == *y,
        _ => false,
    };
    if !prior_same {
        return false;
    }
    if a.tracking.len() != b.tracking.len() {
        return false;
    }
    let mut i: usize = 0;
    while i < a.tracking.len()
        invariant
            i <= a.tracking@.len(),
            a.tracking@.len() == b.tracking@.len(),
            forall|j: int| 0 <= j < i ==> a.tracking@[j] == b.tracking@[j],
        decreases a.tracking@.len() - i,
    {
        if a.tracking[i] != b.tracking[i] {
            return false;
        }
        i = i + 1;
    }
    proof {
        assert(a@.tracking =~= b@.tracking);
    }
    if a.ommers.len() != b.ommers.len() {
        proof {
            assert(a@.ommers.len() != b@.ommers.len());
        }
        return false;
    }
    let mut k: usize = 0;
    while k < a.ommers.len()
        invariant
            k <= a.ommers@.len(),
            a.ommers@.len() == b.ommers@.len(),
            forall|j: int| 0 <= j < k ==> (#[trigger] a.ommers@[j])@ == b.ommers@[j]@,
        decreases a.ommers@.len() - k,
    {
        if a.ommers[k].addr != b.ommers[k].addr {
            proof {
                assert(a@.ommers[k as int] != b@.ommers[k as int]);
            }
            return false;
        }
        if !node_eq(&a.ommers[k].node, &b.ommers[k].node) {
            proof {
                assert(a@.ommers[k as int] != b@.ommers[k as int]);
            }
            return false;
        }
        proof {
            assert(a.ommers@[k as int]@ =~~= b.ommers@[k as int]@);
        }
        k = k + 1;
    }
    proof {
        assert(a@.ommers =~~= b@.ommers);
    }
    if !frontier_eq(&a.frontier, &b.frontier) {
        return false;
    }
    proof {
        assert(a@ =~~= b@);
    }
    true
}

fn position_list_eq(a: &Vec<Position>, b: &Vec<Position>) -> (r: bool)
    ensures
        r == (a@ == b@),
{
    if a.len() != b.len() {
        return false;
    }
    let mut i: usize = 0;
    while i < a.len()
        invariant
            i <= a@.len(),
            a@.len() == b@.len(),
            forall|j: int| 0 <= j < i ==> a@[j] == b@[j],
        decreases a@.len() - i,
    {
        if a[i] != b[i] {
            return false;
        }
        i = i + 1;
    }
    proof {
        assert(a@ =~= b@);
    }
    true
}

fn checkpoint_eq(a: &Checkpoint, b: &Checkpoint) -> (r: bool)
    ensures
        r == (a@ == b@),
{
    if a.id != b.id || a.bridges_len != b.bridges_len {
        return false;
    }
    if !position_list_eq(&a.marked, &b.marked) {
        return false;
    }
    if !position_list_eq(&a.forgotten, &b.forgotten) {
        return false;
    }
    proof {
        assert(a@ =~~= b@);
    }
    true
}

fn tree_eq(a: &BridgeTree, b: &BridgeTree) -> (r: bool)
    ensures
        r == (a@ == b@),
{
    if a.depth != b.depth || a.max_checkpoints != b.max_checkpoints {
        return false;
    }
    if a.prior_bridges.len() != b.prior_bridges.len() {
        proof {
            assert(a@.prior_bridges.len() != b@.prior_bridges.len());
        }
        return false;
    }
    let mut i: usize = 0;
    while i < a.prior_bridges.len()
        invariant
            i <= a.prior_bridges@.len(),
            a.prior_bridges@.len() == b.prior_bridges@.len(),
            forall|j: int|
                0 <= j < i ==> (#[trigger] a.prior_bridges@[j])@ == b.prior_bridges@[j]@,
        decreases a.prior_bridges@.len() - i,
    {
        if !bridge_eq(&a.prior_bridges[i], &b.prior_bridges[i]) {
            proof {
                assert(a@.prior_bridges[i as int] != b@.prior_bridges[i as int]);
            }
            return false;
        }
        i = i + 1;
    }
    proof {
        assert(a@.prior_bridges =~~= b@.prior_bridges);
    }
    let current_same = match (&a.current_bridge, &b.current_bridge) {
        (None, None) => true,
        (Some(x), Some(y)) => bridge_eq(x, y),
        _ => false,
    };
    if !current_same {
        return false;
    }
    if a.saved.len() != b.saved.len() {
        return false;
    }
    let mut m: usize = 0;
    while m < a.saved.len()
        invariant
            m <= a.saved@.len(),
            a.saved@.len() == b.saved@.len(),
            forall|j: int| 0 <= j < m ==> a.saved@[j] == b.saved@[j],
        decreases a.saved@.len() - m,
    {
        if a.saved[m] != b.saved[m] {
            return false;
        }
        m = m + 1;
    }
    proof {
        assert(a@.saved =~= b@.saved);
    }
    if a.checkpoints.len() != b.checkpoints.len() {
        proof {
            assert(a@.checkpoints.len() != b@.checkpoints.len());
        }
        return false;
    }
    let mut c: usize = 0;
    while c < a.checkpoints.len()
        invariant
            c <= a.checkpoints@.len(),
            a.checkpoints@.len() == b.checkpoints@.len(),
            forall|j: int|
                0 <= j < c ==> (#[trigger] a.checkpoints@[j])@ == b.checkpoints@[j]@,
        decreases a.checkpoints@.len() - c,
    {
        if !checkpoint_eq(&a.checkpoints[c], &b.checkpoints[c]) {
            proof {
                assert(a@.checkpoints[c as int] != b@.checkpoints[c as int]);
            }
            return false;
        }
        c = c + 1;
    }
    proof {
        assert(a@.checkpoints =~~= b@.checkpoints);
        assert(a@ =~~= b@);
    }
    true
}

impl PartialEq for BridgeTree {
    /// Structural equality of two trees.
    fn eq(&self, other: &BridgeTree) -> (r: bool) {
        tree_eq(self, other)
    }
}

impl vstd::std_specs::cmp::PartialEqSpecImpl for BridgeTree {
    open spec fn obeys_eq_spec() -> bool {
        true
    }

    open spec fn eq_spec(&self, other: &BridgeTree) -> bool {
        self@ == other@
    }
}

} // verus!
