//! Chain state, the persistent chain, and the speculative overlay.
//!
//! The chain state holds the spent-nullifier set, the recorded coins
//! with their lifecycle stage, and the published verifying keys.  A
//! [`Blockchain`] is the committed chain: its blocks in order plus the
//! state they produced.  An [`Overlay`] is a scratch copy taken at the
//! start of block verification: writes land in the overlay, inner
//! checkpoints allow one transaction's writes to be rolled back, and a
//! commit folds the overlay back into the chain in one step.

use vstd::prelude::*;

use crate::crypto::{spec_vk_of, vk_of};
use crate::error::Error;
use crate::types::{Block, BlockV, spec_block_hash};

verus! {

/// The lifecycle stage of a recorded coin.
#[derive(Clone, Copy, Debug, PartialEq, Eq, Structural)]
pub enum CoinKind {
    /// An ordinary spendable coin.
    Money,
    /// A coin staked in consensus.
    Staked,
    /// A staked coin whose unstake has been requested.
    UnstakeRequested,
}

/// A recorded coin: its commitment, opened value, holder key, stage,
/// and the slot of its last stage change.
#[derive(Clone, Copy, Debug, PartialEq, Eq, Structural)]
pub struct CoinRecord {
    pub coin: u64,
    pub value: u64,
    pub pubkey: u64,
    pub kind: CoinKind,
    pub since_slot: u64,
}

/// A published verifying key for one contract's proof namespace.
#[derive(Clone, Copy, Debug, PartialEq, Eq, Structural)]
pub struct VkEntry {
    pub contract_id: u64,
    pub namespace: u64,
    pub vk: u64,
}

/// The mutable chain state.
#[derive(Debug)]
pub struct ValidatorState {
    pub nullifiers: Vec<u64>,
    pub coins: Vec<CoinRecord>,
    pub vks: Vec<VkEntry>,
}

#[verifier::ext_equal]
pub ghost struct StateV {
    pub nullifiers: Seq<u64>,
    pub coins: Seq<CoinRecord>,
    pub vks: Seq<VkEntry>,
}

impl View for ValidatorState {
    type V = StateV;

    open spec fn view(&self) -> StateV {
        StateV { nullifiers: self.nullifiers@, coins: self.coins@, vks: self.vks@ }
    }
}

// ---------------------------------------------------------------------
// Lookups
// ---------------------------------------------------------------------

/// The first record of `coin`, scanning front to back.
pub open spec fn lookup_coin(coins: Seq<CoinRecord>, coin: u64) -> Option<CoinRecord>
    decreases coins.len(),
{
    if coins.len() == 0 {
        None
    } else if coins[0].coin == coin {
        Some(coins[0])
    } else {
        lookup_coin(coins.drop_first(), coin)
    }
}

/// The first verifying key for `(contract_id, namespace)`.
pub open spec fn lookup_vk(vks: Seq<VkEntry>, contract_id: u64, namespace: u64) -> Option<u64>
    decreases vks.len(),
{
    if vks.len() == 0 {
        None
    } else if vks[0].contract_id == contract_id && vks[0].namespace == namespace {
        Some(vks[0].vk)
    } else {
        lookup_vk(vks.drop_first(), contract_id, namespace)
    }
}

pub open spec fn no_dup(s: Seq<u64>) -> bool {
    forall|i: int, j: int| 0 <= i < j < s.len() ==> s[i] != s[j]
}

/// Chain-state well-formedness: no nullifier twice, no coin recorded
/// twice.
pub open spec fn state_wf(s: StateV) -> bool {
    &&& no_dup(s.nullifiers)
    &&& forall|i: int, j: int|
        0 <= i < j < s.coins.len() ==> (#[trigger] s.coins[i]).coin != (#[trigger] s.coins[j]).coin
}

/// Find a coin record in the executable state.
pub fn find_coin(state: &ValidatorState, coin: u64) -> (r: Option<CoinRecord>)
    ensures
        r == lookup_coin(state@.coins, coin),
{
    let mut i: usize = 0;
    proof {
        assert(state@.coins.skip(0) =~= state@.coins);
    }
    while i < state.coins.len()
        invariant
            i <= state@.coins.len(),
            lookup_coin(state@.coins, coin) == lookup_coin(state@.coins.skip(i as int), coin),
        decreases state@.coins.len() - i,
    {
        proof {
            assert(state@.coins.skip(i as int)[0] == state@.coins[i as int]);
            assert(state@.coins.skip(i as int).drop_first() =~= state@.coins.skip(i + 1));
        }
        if state.coins[i].coin == coin {
            return Some(state.coins[i]);
        }
        i = i + 1;
    }
    proof {
        assert(state@.coins.skip(state@.coins.len() as int) =~= Seq::<CoinRecord>::empty());
    }
    None
}

/// Whether a nullifier has been spent.
pub fn has_nullifier(state: &ValidatorState, nf: u64) -> (r: bool)
    ensures
        r == state@.nullifiers.contains(nf),
{
    let mut i: usize = 0;
    while i < state.nullifiers.len()
        invariant
            i <= state@.nullifiers.len(),
            forall|j: int| 0 <= j < i ==> state@.nullifiers[j] != nf,
        decreases state@.nullifiers.len() - i,
    {
        if state.nullifiers[i] == nf {
            assert(state@.nullifiers[i as int] == nf);
            return true;
        }
        i = i + 1;
    }
    false
}

/// Look up a verifying key in the executable state.
pub fn get_zkas(state: &ValidatorState, contract_id: u64, namespace: u64) -> (r: Option<u64>)
    ensures
        r == lookup_vk(state@.vks, contract_id, namespace),
{
    let mut i: usize = 0;
    proof {
        assert(state@.vks.skip(0) =~= state@.vks);
    }
    while i < state.vks.len()
        invariant
            i <= state@.vks.len(),
            lookup_vk(state@.vks, contract_id, namespace) == lookup_vk(
                state@.vks.skip(i as int),
                contract_id,
                namespace,
            ),
        decreases state@.vks.len() - i,
    {
        proof {
            assert(state@.vks.skip(i as int)[0] == state@.vks[i as int]);
            assert(state@.vks.skip(i as int).drop_first() =~= state@.vks.skip(i + 1));
        }
        if state.vks[i].contract_id == contract_id && state.vks[i].namespace == namespace {
            return Some(state.vks[i].vk);
        }
        i = i + 1;
    }
    proof {
        assert(state@.vks.skip(state@.vks.len() as int) =~= Seq::<VkEntry>::empty());
    }
    None
}

/// Deep copy of the chain state.
pub fn clone_state(state: &ValidatorState) -> (r: ValidatorState)
    ensures
        r@ == state@,
{
    let mut nullifiers: Vec<u64> = Vec::new();
    let mut i: usize = 0;
    while i < state.nullifiers.len()
        invariant
            i <= state@.nullifiers.len(),
            nullifiers@ == state@.nullifiers.take(i as int),
        decreases state@.nullifiers.len() - i,
    {
        nullifiers.push(state.nullifiers[i]);
        assert(nullifiers@ =~= state@.nullifiers.take(i + 1));
        i = i + 1;
    }
    let mut coins: Vec<CoinRecord> = Vec::new();
    let mut j: usize = 0;
    while j < state.coins.len()
        invariant
            j <= state@.coins.len(),
            coins@ == state@.coins.take(j as int),
        decreases state@.coins.len() - j,
    {
        coins.push(state.coins[j]);
        assert(coins@ =~= state@.coins.take(j + 1));
        j = j + 1;
    }
    let mut vks: Vec<VkEntry> = Vec::new();
    let mut k: usize = 0;
    while k < state.vks.len()
        invariant
            k <= state@.vks.len(),
            vks@ == state@.vks.take(k as int),
        decreases state@.vks.len() - k,
    {
        vks.push(state.vks[k]);
        assert(vks@ =~= state@.vks.take(k + 1));
        k = k + 1;
    }
    let r = ValidatorState { nullifiers, coins, vks };
    proof {
        assert(state@.nullifiers.take(state@.nullifiers.len() as int) =~= state@.nullifiers);
        assert(state@.coins.take(state@.coins.len() as int) =~= state@.coins);
        assert(state@.vks.take(state@.vks.len() as int) =~= state@.vks);
        assert(r@ =~~= state@);
    }
    r
}


/// Whether a value occurs in a vector of machine words.
pub fn contains_u64(v: &Vec<u64>, x: u64) -> (r: bool)
    ensures
        r == v@.contains(x),
{
    let mut i: usize = 0;
    while i < v.len()
        invariant
            i <= v@.len(),
            forall|j: int| 0 <= j < i ==> v@[j] != x,
        decreases v@.len() - i,
    {
        if v[i] == x {
            assert(v@[i as int] == x);
            return true;
        }
        i = i + 1;
    }
    false
}

/// Whether a coin is recorded in a record list.
pub fn records_contain(recs: &Vec<CoinRecord>, coin: u64) -> (r: bool)
    ensures
        r == (lookup_coin(recs@, coin) is Some),
{
    let mut i: usize = 0;
    proof {
        assert(recs@.skip(0) =~= recs@);
    }
    while i < recs.len()
        invariant
            i <= recs@.len(),
            lookup_coin(recs@, coin) == lookup_coin(recs@.skip(i as int), coin),
        decreases recs@.len() - i,
    {
        proof {
            assert(recs@.skip(i as int)[0] == recs@[i as int]);
            assert(recs@.skip(i as int).drop_first() =~= recs@.skip(i + 1));
        }
        if recs[i].coin == coin {
            return true;
        }
        i = i + 1;
    }
    proof {
        assert(recs@.skip(recs@.len() as int) =~= Seq::<CoinRecord>::empty());
    }
    false
}

/// A coin is absent exactly when no record carries it.
pub proof fn lemma_lookup_coin_none(coins: Seq<CoinRecord>, coin: u64)
    ensures
        (lookup_coin(coins, coin) is None) <==> (forall|i: int|
            0 <= i < coins.len() ==> (#[trigger] coins[i]).coin != coin),
    decreases coins.len(),
{
    if coins.len() > 0 {
        lemma_lookup_coin_none(coins.drop_first(), coin);
        assert forall|i: int|
            0 <= i < coins.drop_first().len() implies #[trigger] coins.drop_first()[i]
            == coins[i + 1] by {}
        if coins[0].coin != coin {
            if lookup_coin(coins, coin) is None {
                assert forall|i: int|
                    0 <= i < coins.len() implies (#[trigger] coins[i]).coin != coin by {
                    if i > 0 {
                        assert(coins[i] == coins.drop_first()[i - 1]);
                    }
                }
            }
        }
    }
}

// ---------------------------------------------------------------------
// The committed chain
// ---------------------------------------------------------------------

/// The verifying keys every fresh chain publishes for the native
/// contracts.
pub open spec fn native_vks_wf(s: StateV) -> bool {
    &&& lookup_vk(s.vks, crate::runtime::MONEY_CONTRACT_ID, crate::runtime::NS_MONEY_BURN)
        == Some(
        spec_vk_of(crate::runtime::MONEY_CONTRACT_ID, crate::runtime::NS_MONEY_BURN),
    )
    &&& lookup_vk(s.vks, crate::runtime::MONEY_CONTRACT_ID, crate::runtime::NS_MONEY_MINT)
        == Some(
        spec_vk_of(crate::runtime::MONEY_CONTRACT_ID, crate::runtime::NS_MONEY_MINT),
    )
    &&& lookup_vk(
        s.vks,
        crate::runtime::CONSENSUS_CONTRACT_ID,
        crate::runtime::NS_CONSENSUS_BURN,
    ) == Some(
        spec_vk_of(crate::runtime::CONSENSUS_CONTRACT_ID, crate::runtime::NS_CONSENSUS_BURN),
    )
    &&& lookup_vk(
        s.vks,
        crate::runtime::CONSENSUS_CONTRACT_ID,
        crate::runtime::NS_CONSENSUS_MINT,
    ) == Some(
        spec_vk_of(crate::runtime::CONSENSUS_CONTRACT_ID, crate::runtime::NS_CONSENSUS_MINT),
    )
}

/// The committed chain: blocks in order plus the state they produced.
#[derive(Debug)]
pub struct Blockchain {
    pub blocks: Vec<Block>,
    pub state: ValidatorState,
}

#[verifier::ext_equal]
pub ghost struct ChainV {
    pub blocks: Seq<BlockV>,
    pub state: StateV,
}

impl View for Blockchain {
    type V = ChainV;

    open spec fn view(&self) -> ChainV {
        ChainV { blocks: crate::types::blocks_view(self.blocks@), state: self.state@ }
    }
}

/// Chain well-formedness: sound state, native keys published, and
/// strictly increasing slots between adjacent blocks.
pub open spec fn chain_wf(c: ChainV) -> bool {
    &&& state_wf(c.state)
    &&& native_vks_wf(c.state)
    &&& forall|i: int|
        0 <= i < c.blocks.len() - 1 ==> (#[trigger] c.blocks[i]).header.slot < c.blocks[
            i + 1
        ].header.slot
}

impl Blockchain {
    /// A fresh chain: no blocks, empty state, native verifying keys
    /// published.
    pub fn new() -> (r: Blockchain)
        ensures
            r@.blocks == Seq::<BlockV>::empty(),
            r@.state.nullifiers == Seq::<u64>::empty(),
            r@.state.coins == Seq::<CoinRecord>::empty(),
            chain_wf(r@),
    {
        let mut vks: Vec<VkEntry> = Vec::new();
        vks.push(
            VkEntry {
                contract_id: crate::runtime::MONEY_CONTRACT_ID,
                namespace: crate::runtime::NS_MONEY_BURN,
                vk: vk_of(crate::runtime::MONEY_CONTRACT_ID, crate::runtime::NS_MONEY_BURN),
            },
        );
        vks.push(
            VkEntry {
                contract_id: crate::runtime::MONEY_CONTRACT_ID,
                namespace: crate::runtime::NS_MONEY_MINT,
                vk: vk_of(crate::runtime::MONEY_CONTRACT_ID, crate::runtime::NS_MONEY_MINT),
            },
        );
        vks.push(
            VkEntry {
                contract_id: crate::runtime::CONSENSUS_CONTRACT_ID,
                namespace: crate::runtime::NS_CONSENSUS_BURN,
                vk: vk_of(
                    crate::runtime::CONSENSUS_CONTRACT_ID,
                    crate::runtime::NS_CONSENSUS_BURN,
                ),
            },
        );
        vks.push(
            VkEntry {
                contract_id: crate::runtime::CONSENSUS_CONTRACT_ID,
                namespace: crate::runtime::NS_CONSENSUS_MINT,
                vk: vk_of(
                    crate::runtime::CONSENSUS_CONTRACT_ID,
                    crate::runtime::NS_CONSENSUS_MINT,
                ),
            },
        );
        let state = ValidatorState { nullifiers: Vec::new(), coins: Vec::new(), vks };
        let r = Blockchain { blocks: Vec::new(), state };
        proof {
            reveal_lookup_four(r@.state);
            assert(crate::types::blocks_view(r.blocks@) =~= Seq::<BlockV>::empty());
        }
        r
    }

    /// The slot of the last committed block, or none on a fresh chain.
    pub fn tip_slot(&self) -> (r: Option<u64>)
        ensures
            match r {
                Some(s) => self@.blocks.len() > 0 && s == self@.blocks.last().header.slot,
                None => self@.blocks.len() == 0,
            },
    {
        let n = self.blocks.len();
        if n == 0 {
            None
        } else {
            proof {
                assert(self@.blocks[n - 1] == self.blocks@[n - 1]@);
            }
            Some(self.blocks[n - 1].header.slot)
        }
    }
}

/// Unfold the native key lookups over the four pushed entries.
proof fn reveal_lookup_four(s: StateV)
    requires
        s.vks.len() == 4,
        s.vks[0] == (VkEntry {
            contract_id: crate::runtime::MONEY_CONTRACT_ID,
            namespace: crate::runtime::NS_MONEY_BURN,
            vk: spec_vk_of(crate::runtime::MONEY_CONTRACT_ID, crate::runtime::NS_MONEY_BURN),
        }),
        s.vks[1] == (VkEntry {
            contract_id: crate::runtime::MONEY_CONTRACT_ID,
            namespace: crate::runtime::NS_MONEY_MINT,
            vk: spec_vk_of(crate::runtime::MONEY_CONTRACT_ID, crate::runtime::NS_MONEY_MINT),
        }),
        s.vks[2] == (VkEntry {
            contract_id: crate::runtime::CONSENSUS_CONTRACT_ID,
            namespace: crate::runtime::NS_CONSENSUS_BURN,
            vk: spec_vk_of(
                crate::runtime::CONSENSUS_CONTRACT_ID,
                crate::runtime::NS_CONSENSUS_BURN,
            ),
        }),
        s.vks[3] == (VkEntry {
            contract_id: crate::runtime::CONSENSUS_CONTRACT_ID,
            namespace: crate::runtime::NS_CONSENSUS_MINT,
            vk: spec_vk_of(
                crate::runtime::CONSENSUS_CONTRACT_ID,
                crate::runtime::NS_CONSENSUS_MINT,
            ),
        }),
    ensures
        native_vks_wf(s),
{
    let v0 = s.vks;
    let v1 = s.vks.drop_first();
    let v2 = v1.drop_first();
    let v3 = v2.drop_first();
    assert(v1[0] == s.vks[1] && v1.len() == 3);
    assert(v2[0] == s.vks[2] && v2.len() == 2);
    assert(v3[0] == s.vks[3] && v3.len() == 1);
    let m = crate::runtime::MONEY_CONTRACT_ID;
    let c = crate::runtime::CONSENSUS_CONTRACT_ID;
    assert(lookup_vk(v0, m, crate::runtime::NS_MONEY_BURN) == Some(
        spec_vk_of(m, crate::runtime::NS_MONEY_BURN),
    ));
    assert(lookup_vk(v0, m, crate::runtime::NS_MONEY_MINT) == lookup_vk(
        v1,
        m,
        crate::runtime::NS_MONEY_MINT,
    ));
    assert(lookup_vk(v1, m, crate::runtime::NS_MONEY_MINT) == Some(
        spec_vk_of(m, crate::runtime::NS_MONEY_MINT),
    ));
    assert(lookup_vk(v0, c, crate::runtime::NS_CONSENSUS_BURN) == lookup_vk(
        v1,
        c,
        crate::runtime::NS_CONSENSUS_BURN,
    ));
    assert(lookup_vk(v1, c, crate::runtime::NS_CONSENSUS_BURN) == lookup_vk(
        v2,
        c,
        crate::runtime::NS_CONSENSUS_BURN,
    ));
    assert(lookup_vk(v2, c, crate::runtime::NS_CONSENSUS_BURN) == Some(
        spec_vk_of(c, crate::runtime::NS_CONSENSUS_BURN),
    ));
    assert(lookup_vk(v0, c, crate::runtime::NS_CONSENSUS_MINT) == lookup_vk(
        v1,
        c,
        crate::runtime::NS_CONSENSUS_MINT,
    ));
    assert(lookup_vk(v1, c, crate::runtime::NS_CONSENSUS_MINT) == lookup_vk(
        v2,
        c,
        crate::runtime::NS_CONSENSUS_MINT,
    ));
    assert(lookup_vk(v2, c, crate::runtime::NS_CONSENSUS_MINT) == lookup_vk(
        v3,
        c,
        crate::runtime::NS_CONSENSUS_MINT,
    ));
    assert(lookup_vk(v3, c, crate::runtime::NS_CONSENSUS_MINT) == Some(
        spec_vk_of(c, crate::runtime::NS_CONSENSUS_MINT),
    ));
}

// ---------------------------------------------------------------------
// The speculative overlay
// ---------------------------------------------------------------------

/// A saved rollback point inside an overlay.
#[derive(Debug)]
pub struct OverlaySnapshot {
    pub n_staged: u64,
    pub state: ValidatorState,
}

#[verifier::ext_equal]
pub ghost struct SnapshotV {
    pub n_staged: u64,
    pub state: StateV,
}

impl View for OverlaySnapshot {
    type V = SnapshotV;

    open spec fn view(&self) -> SnapshotV {
        SnapshotV { n_staged: self.n_staged, state: self.state@ }
    }
}

/// The checkpoint/revert layer over the chain, owned by one block
/// verification at a time.  Writes made here are invisible outside
/// until a commit folds them into the chain.
#[derive(Debug)]
pub struct Overlay {
    pub base_hashes: Vec<u64>,
    pub staged: Vec<Block>,
    pub state: ValidatorState,
    pub checkpoints: Vec<OverlaySnapshot>,
}

#[verifier::ext_equal]
pub ghost struct OverlayV {
    pub base_hashes: Seq<u64>,
    pub staged: Seq<BlockV>,
    pub state: StateV,
    pub checkpoints: Seq<SnapshotV>,
}

impl View for Overlay {
    type V = OverlayV;

    open spec fn view(&self) -> OverlayV {
        OverlayV {
            base_hashes: self.base_hashes@,
            staged: crate::types::blocks_view(self.staged@),
            state: self.state@,
            checkpoints: self.checkpoints@.map_values(|s: OverlaySnapshot| s@),
        }
    }
}

/// The identities of all blocks the overlay can see.
pub open spec fn overlay_sees_hash(o: OverlayV, h: u64) -> bool {
    o.base_hashes.contains(h) || exists|i: int|
        0 <= i < o.staged.len() && spec_block_hash((#[trigger] o.staged[i]).header) == h
}

impl Overlay {
    /// Open an overlay over the chain: its block identities and a copy
    /// of its state.
    pub fn new(chain: &Blockchain) -> (r: Overlay)
        ensures
            r@.base_hashes.len() == chain@.blocks.len(),
            forall|i: int|
                0 <= i < chain@.blocks.len() ==> r@.base_hashes[i] == spec_block_hash(
                    (#[trigger] chain@.blocks[i]).header,
                ),
            r@.staged == Seq::<BlockV>::empty(),
            r@.state == chain@.state,
            r@.checkpoints == Seq::<SnapshotV>::empty(),
    {
        let mut base_hashes: Vec<u64> = Vec::new();
        let mut i: usize = 0;
        while i < chain.blocks.len()
            invariant
                i <= chain@.blocks.len(),
                chain@.blocks.len() == chain.blocks@.len(),
                base_hashes@.len() == i,
                forall|j: int|
                    0 <= j < i ==> base_hashes@[j] == spec_block_hash(
                        (#[trigger] chain@.blocks[j]).header,
                    ),
            decreases chain@.blocks.len() - i,
        {
            let h = chain.blocks[i].blockhash();
            proof {
                assert(chain@.blocks[i as int] == chain.blocks@[i as int]@);
            }
            base_hashes.push(h);
            i = i + 1;
        }
        let r = Overlay {
            base_hashes,
            staged: Vec::new(),
            state: clone_state(&chain.state),
            checkpoints: Vec::new(),
        };
        proof {
            assert(crate::types::blocks_view(r.staged@) =~= Seq::<BlockV>::empty());
            assert(r.checkpoints@.map_values(|s: OverlaySnapshot| s@) =~= Seq::<
                SnapshotV,
            >::empty());
        }
        r
    }

    /// Whether the overlay already sees a block with this block's
    /// identity.
    pub fn has_block(&self, block: &Block) -> (r: bool)
        ensures
            r == overlay_sees_hash(self@, spec_block_hash(block@.header)),
    {
        let h = block.blockhash();
        let mut i: usize = 0;
        while i < self.base_hashes.len()
            invariant
                i <= self@.base_hashes.len(),
                forall|j: int| 0 <= j < i ==> self@.base_hashes[j] != h,
                h == spec_block_hash(block@.header),
            decreases self@.base_hashes.len() - i,
        {
            if self.base_hashes[i] == h {
                assert(self@.base_hashes[i as int] == h);
                return true;
            }
            i = i + 1;
        }
        let mut j: usize = 0;
        while j < self.staged.len()
            invariant
                j <= self@.staged.len(),
                self@.staged.len() == self.staged@.len(),
                forall|k: int|
                    0 <= k < j ==> spec_block_hash((#[trigger] self@.staged[k]).header) != h,
                forall|k: int| 0 <= k < self@.base_hashes.len() ==> self@.base_hashes[k] != h,
                h == spec_block_hash(block@.header),
            decreases self@.staged.len() - j,
        {
            let h2 = self.staged[j].blockhash();
            proof {
                assert(self@.staged[j as int] == self.staged@[j as int]@);
            }
            if h2 == h {
                return true;
            }
            j = j + 1;
        }
        false
    }

    /// Stage a verified block.
    pub fn add_block(&mut self, block: Block)
        ensures
            final(self)@ == (OverlayV { staged: old(self)@.staged.push(block@), ..old(self)@ }),
    {
        self.staged.push(block);
        proof {
            assert(self@.staged =~~= old(self)@.staged.push(self.staged@.last()@));
            assert(self@ =~~= (OverlayV {
                staged: old(self)@.staged.push(self.staged@.last()@),
                ..old(self)@
            }));
        }
    }

    /// Push a rollback point covering the current writes.
    pub fn checkpoint(&mut self)
        ensures
            final(self)@ == (OverlayV {
                checkpoints: old(self)@.checkpoints.push(
                    SnapshotV { n_staged: old(self)@.staged.len() as u64, state: old(self)@.state },
                ),
                ..old(self)@
            }),
    {
        let snap = OverlaySnapshot {
            n_staged: self.staged.len() as u64,
            state: clone_state(&self.state),
        };
        self.checkpoints.push(snap);
        proof {
            assert(self@.checkpoints =~~= old(self)@.checkpoints.push(
                SnapshotV { n_staged: old(self)@.staged.len() as u64, state: old(self)@.state },
            ));
            assert(self@ =~~= (OverlayV {
                checkpoints: old(self)@.checkpoints.push(
                    SnapshotV { n_staged: old(self)@.staged.len() as u64, state: old(self)@.state },
                ),
                ..old(self)@
            }));
        }
    }


    /// Drop the most recent rollback point, keeping the writes made
    /// since.
    pub fn discard_checkpoint(&mut self) -> (r: Result<(), Error>)
        ensures
            match r {
                Ok(()) => {
                    &&& old(self)@.checkpoints.len() > 0
                    &&& final(self)@ == (OverlayV {
                        checkpoints: old(self)@.checkpoints.drop_last(),
                        ..old(self)@
                    })
                },
                Err(e) => {
                    &&& old(self)@.checkpoints.len() == 0
                    &&& final(self)@ == old(self)@
                    &&& e == Error::BridgeTreeError
                },
            },
    {
        match self.checkpoints.pop() {
            Some(_) => {
                proof {
                    assert(self@.checkpoints =~~= old(self)@.checkpoints.drop_last());
                    assert(self@ =~~= (OverlayV {
                        checkpoints: old(self)@.checkpoints.drop_last(),
                        ..old(self)@
                    }));
                }
                Ok(())
            },
            None => {
                proof {
                    assert(self@ =~~= old(self)@);
                }
                Err(Error::BridgeTreeError)
            },
        }
    }

    /// Pop the most recent rollback point and discard the writes made
    /// since.
    pub fn revert_to_checkpoint(&mut self) -> (r: Result<(), Error>)
        requires
            old(self)@.checkpoints.len() > 0 ==> old(self)@.checkpoints.last().n_staged as nat
                <= old(self)@.staged.len(),
        ensures
            match r {
                Ok(()) => {
                    &&& old(self)@.checkpoints.len() > 0
                    &&& final(self)@ == (OverlayV {
                        staged: old(self)@.staged.take(
                            old(self)@.checkpoints.last().n_staged as int,
                        ),
                        state: old(self)@.checkpoints.last().state,
                        checkpoints: old(self)@.checkpoints.drop_last(),
                        ..old(self)@
                    })
                },
                Err(e) => {
                    &&& old(self)@.checkpoints.len() == 0
                    &&& final(self)@ == old(self)@
                    &&& e == Error::BridgeTreeError
                },
            },
    {
        let snap = match self.checkpoints.pop() {
            Some(s) => s,
            None => {
                proof {
                    assert(self@ =~~= old(self)@);
                }
                return Err(Error::BridgeTreeError);
            },
        };
        let keep = snap.n_staged as usize;
        self.staged.truncate(keep);
        self.state = snap.state;
        proof {
            assert(self@.checkpoints =~~= old(self)@.checkpoints.drop_last());
            assert(snap@ == old(self)@.checkpoints.last());
        }
        Ok(())
    }
}

/// Whether staged blocks extend the chain in strict slot order.
pub open spec fn staged_extend_ok(c: ChainV, staged: Seq<BlockV>) -> bool {
    &&& forall|i: int|
        0 <= i < staged.len() - 1 ==> (#[trigger] staged[i]).header.slot < staged[
            i + 1
        ].header.slot
    &&& (staged.len() > 0 && c.blocks.len() > 0 ==> c.blocks.last().header.slot
        < staged[0].header.slot)
}

impl Blockchain {
    /// Whether these blocks would extend the chain in strict slot
    /// order.
    pub fn check_extend(&self, staged: &Vec<Block>) -> (r: bool)
        ensures
            r == staged_extend_ok(self@, crate::types::blocks_view(staged@)),
    {
        let ghost sv = crate::types::blocks_view(staged@);
        let m = staged.len();
        let n = self.blocks.len();
        if m > 0 && n > 0 {
            proof {
                assert(self@.blocks[n - 1] == self.blocks@[n - 1]@);
                assert(sv[0] == staged@[0]@);
            }
            if self.blocks[n - 1].header.slot >= staged[0].header.slot {
                return false;
            }
        }
        if m > 1 {
            let mut i: usize = 0;
            while i < m - 1
                invariant
                    m == staged@.len(),
                    m >= 1,
                    i <= m - 1,
                    sv == crate::types::blocks_view(staged@),
                    forall|j: int|
                        0 <= j < i ==> (#[trigger] sv[j]).header.slot < sv[j + 1].header.slot,
                decreases m - i,
            {
                proof {
                    assert(sv[i as int] == staged@[i as int]@);
                    assert(sv[i + 1] == staged@[i + 1]@);
                }
                if staged[i].header.slot >= staged[i + 1].header.slot {
                    proof {
                        assert(sv[i as int].header.slot >= sv[i + 1].header.slot);
                    }
                    return false;
                }
                i = i + 1;
            }
        }
        proof {
            assert(staged_extend_ok(self@, sv));
        }
        true
    }

    /// Fold an overlay back into the chain in one step: the staged
    /// blocks are appended and the chain state is replaced.  Staged
    /// blocks out of slot order are refused and nothing changes.
    #[verifier::rlimit(90)]
    #[verifier::spinoff_prover]
    pub fn commit(&mut self, overlay: Overlay) -> (r: Result<(), Error>)
        requires
            chain_wf(old(self)@),
            state_wf(overlay@.state),
            native_vks_wf(overlay@.state),
        ensures
            match r {
                Ok(()) => {
                    &&& staged_extend_ok(old(self)@, overlay@.staged)
                    &&& final(self)@.blocks == old(self)@.blocks + overlay@.staged
                    &&& final(self)@.state == overlay@.state
                    &&& chain_wf(final(self)@)
                },
                Err(e) => {
                    &&& !staged_extend_ok(old(self)@, overlay@.staged)
                    &&& final(self)@ == old(self)@
                    &&& e == Error::VerifyingSlotMismatch
                },
            },
    {
        let mut overlay = overlay;
        let ok = self.check_extend(&overlay.staged);
        if !ok {
            proof {
                assert(self@ =~~= old(self)@);
            }
            return Err(Error::VerifyingSlotMismatch);
        }
        let ghost staged_v = overlay@.staged;
        self.blocks.append(&mut overlay.staged);
        self.state = overlay.state;
        proof {
            assert(self@.blocks =~~= old(self)@.blocks + staged_v);
            assert forall|k: int|
                0 <= k < self@.blocks.len() - 1 implies (#[trigger] self@.blocks[k]).header.slot
                < self@.blocks[k + 1].header.slot by {
                if k < old(self)@.blocks.len() - 1 {
                    assert(self@.blocks[k] == old(self)@.blocks[k]);
                    assert(self@.blocks[k + 1] == old(self)@.blocks[k + 1]);
                } else if k == old(self)@.blocks.len() - 1 {
                    assert(self@.blocks[k] == old(self)@.blocks.last());
                    assert(self@.blocks[k + 1] == staged_v[0]);
                } else {
                    assert(self@.blocks[k] == staged_v[k - old(self)@.blocks.len()]);
                    assert(self@.blocks[k + 1] == staged_v[k + 1 - old(self)@.blocks.len()]);
                }
            }
        }
        Ok(())
    }
}

} // verus!
