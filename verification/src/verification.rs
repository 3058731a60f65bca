//! Block and transaction verification.
//!
//! A transaction is verified by running each call's `metadata`, `exec`
//! and `apply` in order against the overlay, then checking the
//! signatures (cheap first) and finally the proofs against the cached
//! verifying keys.  A block is verified by checking its identity and
//! slot, validating its header against the previous block, verifying
//! the proposal transaction, verifying the user transactions under
//! inner checkpoints — a failing transaction is reverted and reported,
//! the rest still apply — and staging the block in the overlay.
//!
//! Every function's outcome is pinned to a specification interpreter:
//! `tx_outcome` says, for any state and transaction, exactly which
//! state and which error the engine must produce.

use vstd::prelude::*;

use crate::crypto::{spec_proof_tag, spec_sig_tag, spec_vk_of, mix, proof_tag};
use crate::error::Error;
use crate::runtime::{
    Runtime, UpdateV, apply_update_spec, call_exec_spec, call_metadata_spec, dec_payload,
    lemma_call_exec_wf, lemma_metadata_err_exec, lemma_metadata_native, zk_table_view,
};
use crate::serial::{enc_u32, encode_u32, lemma_dec_enc_u32};
use crate::state::{
    Overlay, OverlayV, StateV, ValidatorState, VkEntry, chain_wf, get_zkas, lookup_vk,
    native_vks_wf, state_wf,
};
use crate::types::{
    Block, CallV, ContractCall, TimeKeeper, Transaction, TxV, calls_view, enc_call_list,
    encode_call_list, lemma_dec_enc_call_list, spec_block_hash, spec_tx_root, tx_default,
    tx_sig_msg, txs_view,
};

verus! {

// ---------------------------------------------------------------------
// The specification interpreter
// ---------------------------------------------------------------------

/// Run the first `k` calls of a transaction: each call's update lands
/// before the next call runs.  Returns the state reached and the first
/// error, if any; calls after a failing call do not run.
pub open spec fn run_calls(st: StateV, calls: Seq<CallV>, k: int, slot: u64) -> (
    StateV,
    Option<Error>,
)
    decreases k,
{
    if k <= 0 {
        (st, None)
    } else {
        let prev = run_calls(st, calls, k - 1, slot);
        if prev.1 is Some {
            prev
        } else {
            match call_exec_spec(prev.0, calls[k - 1], slot) {
                Err(e) => (prev.0, Some(e)),
                Ok(u) => (apply_update_spec(prev.0, u), None),
            }
        }
    }
}

/// The proof demands of each call, in call order.
pub open spec fn zk_tables(calls: Seq<CallV>) -> Seq<Seq<(u64, Seq<u64>)>> {
    calls.map_values(
        |c: CallV|
            match call_metadata_spec(c) {
                Ok(t) => t.0,
                Err(_) => Seq::empty(),
            },
    )
}

/// The declared signing keys of each call, in call order.
pub open spec fn sig_tables(calls: Seq<CallV>) -> Seq<Seq<u64>> {
    calls.map_values(
        |c: CallV|
            match call_metadata_spec(c) {
                Ok(t) => t.1,
                Err(_) => Seq::empty(),
            },
    )
}

/// Every call carries one valid signature per declared signing key,
/// over the transaction's signing message.
pub open spec fn sigs_ok(tx: TxV) -> bool {
    forall|i: int|
        0 <= i < tx.calls.len() ==> {
            let keys = sig_tables(tx.calls)[i];
            &&& (#[trigger] tx.signatures[i]).len() == keys.len()
            &&& forall|j: int|
                0 <= j < keys.len() ==> (#[trigger] tx.signatures[i][j]).tag == spec_sig_tag(
                    keys[j],
                    tx_sig_msg(tx),
                )
        }
}

/// Every call carries exactly one proof per demand its metadata
/// declares.
pub open spec fn proofs_arity_ok(tx: TxV) -> bool {
    &&& tx.proofs.len() == tx.calls.len()
    &&& forall|i: int|
        0 <= i < tx.calls.len() ==> (#[trigger] tx.proofs[i]).len() == zk_tables(
            tx.calls,
        )[i].len()
}

/// Every proof checks out against its contract's published verifying
/// key and the declared public inputs.
pub open spec fn proofs_ok(tx: TxV) -> bool {
    forall|i: int, j: int|
        0 <= i < tx.calls.len() && 0 <= j < zk_tables(tx.calls)[i].len()
            ==> (#[trigger] tx.proofs[i][j]).payload == spec_proof_tag(
            spec_vk_of(tx.calls[i].contract_id, zk_tables(tx.calls)[i][j].0),
            zk_tables(tx.calls)[i][j].1,
        )
}

/// The outcome of verifying one transaction against a state: the state
/// its calls reach, and the first error, if any.  An error after the
/// call loop leaves the calls' writes in place; the caller's
/// checkpoint discards them.
pub open spec fn tx_outcome(st: StateV, tx: TxV, slot: u64) -> (StateV, Option<Error>) {
    if tx.calls.len() > u32::MAX {
        (st, Some(Error::MalformedEncoding))
    } else {
        tx_outcome_inner(st, tx, slot)
    }
}

/// The outcome past the frame-size check.
pub open spec fn tx_outcome_inner(st: StateV, tx: TxV, slot: u64) -> (StateV, Option<Error>) {
    let run = run_calls(st, tx.calls, tx.calls.len() as int, slot);
    if run.1 is Some {
        run
    } else if tx.signatures.len() != tx.calls.len() {
        (run.0, Some(Error::MissingSignatures))
    } else if !sigs_ok(tx) {
        (run.0, Some(Error::InvalidSignature))
    } else if !proofs_arity_ok(tx) {
        (run.0, Some(Error::ArityMismatch))
    } else if !proofs_ok(tx) {
        (run.0, Some(Error::InvalidZkProof))
    } else {
        (run.0, None)
    }
}

/// A failing call prefix decides every longer prefix.
pub proof fn lemma_run_calls_err_mono(st: StateV, calls: Seq<CallV>, k: int, k2: int, slot: u64)
    requires
        0 <= k <= k2,
        run_calls(st, calls, k, slot).1 is Some,
    ensures
        run_calls(st, calls, k2, slot) == run_calls(st, calls, k, slot),
    decreases k2 - k,
{
    if k2 > k {
        lemma_run_calls_err_mono(st, calls, k, k2 - 1, slot);
    }
}

/// An accepted call run keeps the state well formed and the published
/// keys untouched.
pub proof fn lemma_run_calls_wf(st: StateV, calls: Seq<CallV>, k: int, slot: u64)
    requires
        0 <= k,
        state_wf(st),
    ensures
        run_calls(st, calls, k, slot).0.vks == st.vks,
        state_wf(run_calls(st, calls, k, slot).0),
    decreases k,
{
    if k > 0 {
        lemma_run_calls_wf(st, calls, k - 1, slot);
        let prev = run_calls(st, calls, k - 1, slot);
        if prev.1 is None {
            match call_exec_spec(prev.0, calls[k - 1], slot) {
                Err(_) => {},
                Ok(u) => {
                    lemma_call_exec_wf(prev.0, calls[k - 1], slot);
                },
            }
        }
    }
}

// ---------------------------------------------------------------------
// The per-batch verifying-key cache
// ---------------------------------------------------------------------

/// Memoized verifying keys for one transaction batch: the first call
/// naming a `(contract, namespace)` pair fetches from the overlay,
/// later calls in the batch reuse the entry.
#[derive(Debug)]
pub struct VkCache {
    pub entries: Vec<VkEntry>,
}

/// Every cached key agrees with the state's published keys.
pub open spec fn cache_ok(entries: Seq<VkEntry>, st: StateV) -> bool {
    forall|i: int|
        0 <= i < entries.len() ==> lookup_vk(
            st.vks,
            (#[trigger] entries[i]).contract_id,
            entries[i].namespace,
        ) == Some(entries[i].vk)
}

impl VkCache {
    /// An empty cache for a fresh batch.
    pub fn new() -> (r: VkCache)
        ensures
            r.entries@ == Seq::<VkEntry>::empty(),
    {
        VkCache { entries: Vec::new() }
    }

    /// The cached key, or the state's, memoizing on a miss.
    pub fn lookup_or_fetch(&mut self, state: &ValidatorState, contract_id: u64, namespace: u64)
        -> (r: Result<u64, Error>)
        requires
            cache_ok(old(self).entries@, state@),
        ensures
            cache_ok(final(self).entries@, state@),
            match r {
                Ok(vk) => lookup_vk(state@.vks, contract_id, namespace) == Some(vk),
                Err(e) => lookup_vk(state@.vks, contract_id, namespace) is None && e
                    == Error::InvalidZkProof,
            },
    {
        let mut i: usize = 0;
        while i < self.entries.len()
            invariant
                i <= self.entries@.len(),
                cache_ok(self.entries@, state@),
            decreases self.entries@.len() - i,
        {
            if self.entries[i].contract_id == contract_id && self.entries[i].namespace
                == namespace {
                proof {
                    assert(lookup_vk(state@.vks, contract_id, namespace) == Some(
                        self.entries@[i as int].vk,
                    ));
                }
                return Ok(self.entries[i].vk);
            }
            i = i + 1;
        }
        match get_zkas(state, contract_id, namespace) {
            Some(vk) => {
                self.entries.push(VkEntry { contract_id, namespace, vk });
                proof {
                    assert forall|k: int|
                        0 <= k < self.entries@.len() implies lookup_vk(
                        state@.vks,
                        (#[trigger] self.entries@[k]).contract_id,
                        self.entries@[k].namespace,
                    ) == Some(self.entries@[k].vk) by {
                        if k < self.entries@.len() - 1 {
                            assert(self.entries@[k] == old(self).entries@[k]);
                        }
                    }
                }
                Ok(vk)
            },
            None => Err(Error::InvalidZkProof),
        }
    }
}

// ---------------------------------------------------------------------
// Helpers
// ---------------------------------------------------------------------

/// Surface the machine bounds of a call list to the proofs: every
/// payload held in a vector fits the wire encoding's counters.
fn calls_codable(calls: &Vec<ContractCall>) -> (r: bool)
    ensures
        r,
        calls@.len() <= u64::MAX,
        forall|i: int|
            0 <= i < calls@.len() ==> (#[trigger] calls_view(calls@)[i]).data.len() <= u64::MAX,
{
    let mut i: usize = 0;
    while i < calls.len()
        invariant
            i <= calls@.len(),
            forall|j: int|
                0 <= j < i ==> (#[trigger] calls_view(calls@)[j]).data.len() <= u64::MAX,
        decreases calls@.len() - i,
    {
        let n = calls[i].data.len();
        proof {
            assert(calls_view(calls@)[i as int] == calls@[i as int]@);
            assert(calls@[i as int]@.data.len() == n);
        }
        i = i + 1;
    }
    true
}


/// Frame the payload for call `idx`: the index, then the whole call
/// list.
fn build_payload(calls: &Vec<ContractCall>, idx: usize) -> (payload: Vec<u8>)
    requires
        idx < calls@.len(),
        idx <= u32::MAX,
        calls@.len() <= u64::MAX,
        forall|i: int|
            0 <= i < calls@.len() ==> (#[trigger] calls_view(calls@)[i]).data.len() <= u64::MAX,
    ensures
        dec_payload(payload@) == Some((idx as u64, calls_view(calls@))),
{
    let mut payload: Vec<u8> = Vec::new();
    encode_u32(idx as u32, &mut payload);
    encode_call_list(calls, &mut payload);
    proof {
        let cv = calls_view(calls@);
        assert(payload@ =~= enc_u32(idx as u32) + enc_call_list(cv));
        lemma_dec_enc_u32(idx as u32, enc_call_list(cv));
        lemma_dec_enc_call_list(cv, Seq::<u8>::empty());
        assert(enc_call_list(cv) + Seq::<u8>::empty() =~= enc_call_list(cv));
        assert(payload@.skip(4) =~= enc_call_list(cv));
        assert(dec_payload(payload@) == Some((idx as u64, cv)));
    }
    payload
}

// ---------------------------------------------------------------------
// Transaction verification
// ---------------------------------------------------------------------

/// Validate contract execution, signatures, and proofs for one
/// transaction, and apply it to the overlay.  On success the overlay
/// state is exactly the state `tx_outcome` prescribes; on failure the
/// same error, with the failing point's partial writes left for the
/// caller's checkpoint to discard.
#[verifier::rlimit(80)]
#[verifier::spinoff_prover]
pub fn verify_transaction(
    overlay: &mut Overlay,
    time_keeper: &TimeKeeper,
    tx: &Transaction,
    verifying_keys: &mut VkCache,
) -> (r: Result<(), Error>)
    requires
        state_wf(old(overlay)@.state),
        native_vks_wf(old(overlay)@.state),
        cache_ok(old(verifying_keys).entries@, old(overlay)@.state),
    ensures
        final(overlay)@.base_hashes == old(overlay)@.base_hashes,
        final(overlay)@.staged == old(overlay)@.staged,
        final(overlay)@.checkpoints == old(overlay)@.checkpoints,
        final(overlay)@.state.vks == old(overlay)@.state.vks,
        state_wf(final(overlay)@.state),
        native_vks_wf(final(overlay)@.state),
        cache_ok(final(verifying_keys).entries@, final(overlay)@.state),
        match r {
            Ok(()) => tx_outcome(old(overlay)@.state, tx@, time_keeper.verifying_slot) == (
                final(overlay)@.state,
                None::<Error>,
            ),
            Err(e) => tx_outcome(old(overlay)@.state, tx@, time_keeper.verifying_slot) == (
                final(overlay)@.state,
                Some(e),
            ),
        },
{
    let slot = time_keeper.verifying_slot;
    let ghost st0 = overlay@.state;
    let ghost cv = tx@.calls;
    let n_calls = tx.calls.len();
    proof {
        assert(cv.len() == n_calls);
    }
    if n_calls as u64 > u32::MAX as u64 {
        return Err(Error::MalformedEncoding);
    }
    calls_codable(&tx.calls);
    let mut zkp_table: Vec<Vec<(u64, Vec<u64>)>> = Vec::new();
    let mut vk_table: Vec<Vec<u64>> = Vec::new();
    let mut sig_table: Vec<Vec<u64>> = Vec::new();
    let mut idx: usize = 0;
    while idx < n_calls
        invariant
            idx <= n_calls,
            n_calls == tx.calls@.len(),
            n_calls <= u32::MAX,
            cv == tx@.calls,
            cv.len() == n_calls,
            cv.len() <= u64::MAX,
            forall|i: int| 0 <= i < cv.len() ==> (#[trigger] cv[i]).data.len() <= u64::MAX,
            slot == time_keeper.verifying_slot,
            run_calls(st0, cv, idx as int, slot) == (overlay@.state, None::<Error>),
            state_wf(overlay@.state),
            native_vks_wf(overlay@.state),
            overlay@.base_hashes == old(overlay)@.base_hashes,
            overlay@.staged == old(overlay)@.staged,
            overlay@.checkpoints == old(overlay)@.checkpoints,
            overlay@.state.vks == st0.vks,
            st0 == old(overlay)@.state,
            state_wf(st0),
            cache_ok(verifying_keys.entries@, overlay@.state),
            zkp_table@.len() == idx,
            vk_table@.len() == idx,
            sig_table@.len() == idx,
            forall|i: int|
                0 <= i < idx ==> call_metadata_spec(cv[i]) == Ok::<_, Error>(
                    (zk_table_view((#[trigger] zkp_table@[i])@), sig_table@[i]@),
                ),
            forall|i: int|
                0 <= i < idx ==> (#[trigger] vk_table@[i])@.len() == zkp_table@[i]@.len(),
            forall|i: int, j: int|
                0 <= i < idx && 0 <= j < vk_table@[i]@.len() ==> (#[trigger] vk_table@[i]@[j])
                    == spec_vk_of(cv[i].contract_id, zk_table_view(zkp_table@[i]@)[j].0),
        decreases n_calls - idx,
    {
        let payload = build_payload(&tx.calls, idx);
        proof {
            assert(dec_payload(payload@) == Some((idx as u64, cv)));
        }
        let runtime = Runtime::new(tx.calls[idx].contract_id, *time_keeper);
        let meta = match runtime.metadata(&payload) {
            Ok(m) => m,
            Err(e) => {
                proof {
                    assert(call_metadata_spec(cv[idx as int]) == Err::<
                        (Seq<(u64, Seq<u64>)>, Seq<u64>),
                        Error,
                    >(e));
                    assert(e == Error::MalformedEncoding);
                    lemma_metadata_err_exec(cv[idx as int], overlay@.state, slot);
                    assert(run_calls(st0, cv, idx + 1, slot) == (
                        overlay@.state,
                        Some(Error::MalformedEncoding),
                    ));
                    lemma_run_calls_err_mono(st0, cv, idx + 1, cv.len() as int, slot);
                }
                return Err(e);
            },
        };
        let (zk_list, sig_list) = meta;
        let ghost zk_v = zk_table_view(zk_list@);
        let mut vk_row: Vec<u64> = Vec::new();
        let mut j: usize = 0;
        while j < zk_list.len()
            invariant
                j <= zk_list@.len(),
                zk_v == zk_table_view(zk_list@),
                idx < cv.len(),
                cv == tx@.calls,
                call_metadata_spec(cv[idx as int]) == Ok::<_, Error>((zk_v, sig_list@)),
                tx.calls@[idx as int]@ == cv[idx as int],
                native_vks_wf(overlay@.state),
                cache_ok(verifying_keys.entries@, overlay@.state),
                vk_row@.len() == j,
                forall|k: int|
                    0 <= k < j ==> (#[trigger] vk_row@[k]) == spec_vk_of(
                        cv[idx as int].contract_id,
                        zk_v[k].0,
                    ),
            decreases zk_list@.len() - j,
        {
            let ns = zk_list[j].0;
            proof {
                lemma_metadata_native(overlay@.state, cv[idx as int]);
                assert(zk_v[j as int].0 == ns);
            }
            match verifying_keys.lookup_or_fetch(
                &overlay.state,
                tx.calls[idx].contract_id,
                ns,
            ) {
                Ok(vk) => {
                    proof {
                        assert(vk == spec_vk_of(cv[idx as int].contract_id, zk_v[j as int].0));
                    }
                    vk_row.push(vk);
                },
                Err(_) => {
                    proof {
                        assert(false);
                    }
                    return Err(Error::InvalidZkProof);
                },
            }
            j = j + 1;
        }
        zkp_table.push(zk_list);
        vk_table.push(vk_row);
        sig_table.push(sig_list);
        match runtime.exec(&overlay.state, &payload) {
            Err(e) => {
                proof {
                    assert(call_exec_spec(overlay@.state, cv[idx as int], slot) == Err::<
                        UpdateV,
                        Error,
                    >(e));
                    assert(run_calls(st0, cv, idx + 1, slot) == (overlay@.state, Some(e)));
                    lemma_run_calls_err_mono(st0, cv, idx + 1, cv.len() as int, slot);
                }
                return Err(e);
            },
            Ok(update) => {
                proof {
                    lemma_call_exec_wf(overlay@.state, cv[idx as int], slot);
                }
                runtime.apply(&mut overlay.state, &update);
                proof {
                    assert(run_calls(st0, cv, idx + 1, slot) == (
                        overlay@.state,
                        None::<Error>,
                    ));
                }
            },
        }
        idx = idx + 1;
    }
    let ghost run_state = overlay@.state;
    proof {
        assert(run_calls(st0, cv, cv.len() as int, slot) == (run_state, None::<Error>));
    }
    if tx.signatures.len() != n_calls {
        return Err(Error::MissingSignatures);
    }
    let msg = tx.sig_message();
    proof {
        assert forall|a: int|
            0 <= a < n_calls implies call_metadata_spec(cv[a]) is Ok && sig_tables(cv)[a] == (
        #[trigger] sig_table@[a])@ by {
            assert(call_metadata_spec(cv[a]) == Ok::<_, Error>(
                (zk_table_view(zkp_table@[a]@), sig_table@[a]@),
            ));
        }
    }
    let mut i: usize = 0;
    while i < n_calls
        invariant
            i <= n_calls,
            n_calls == tx.calls@.len(),
            cv == tx@.calls,
            overlay@.base_hashes == old(overlay)@.base_hashes,
            overlay@.staged == old(overlay)@.staged,
            overlay@.checkpoints == old(overlay)@.checkpoints,
            overlay@.state.vks == old(overlay)@.state.vks,
            state_wf(overlay@.state),
            native_vks_wf(overlay@.state),
            cache_ok(verifying_keys.entries@, overlay@.state),
            st0 == old(overlay)@.state,
            slot == time_keeper.verifying_slot,
            n_calls <= u32::MAX,
            run_calls(st0, cv, cv.len() as int, slot) == (overlay@.state, None::<Error>),
            msg == tx_sig_msg(tx@),
            tx@.signatures.len() == n_calls,
            sig_table@.len() == n_calls,
            zkp_table@.len() == n_calls,
            forall|a: int|
                0 <= a < n_calls ==> call_metadata_spec(cv[a]) == Ok::<_, Error>(
                    (zk_table_view((#[trigger] zkp_table@[a])@), sig_table@[a]@),
                ),
            forall|a: int|
                0 <= a < i ==> (#[trigger] tx@.signatures[a]).len() == sig_tables(cv)[a].len()
                    && (forall|b: int|
                    0 <= b < sig_tables(cv)[a].len() ==> (#[trigger] tx@.signatures[a][b]).tag
                        == spec_sig_tag(sig_tables(cv)[a][b], tx_sig_msg(tx@))),
        decreases n_calls - i,
    {
        proof {
            assert(call_metadata_spec(cv[i as int]) == Ok::<_, Error>(
                (zk_table_view(zkp_table@[i as int]@), sig_table@[i as int]@),
            ));
            assert(sig_tables(cv)[i as int] == sig_table@[i as int]@);
        }
        if tx.signatures[i].len() != sig_table[i].len() {
            proof {
                assert(tx@.signatures[i as int].len() != sig_tables(cv)[i as int].len());
                assert(!sigs_ok(tx@));
            }
            return Err(Error::InvalidSignature);
        }
        let mut b: usize = 0;
        while b < sig_table[i].len()
            invariant
                i < n_calls,
                b <= sig_table@[i as int]@.len(),
                n_calls == tx.calls@.len(),
                cv == tx@.calls,
                overlay@.base_hashes == old(overlay)@.base_hashes,
                overlay@.staged == old(overlay)@.staged,
                overlay@.checkpoints == old(overlay)@.checkpoints,
                overlay@.state.vks == old(overlay)@.state.vks,
                state_wf(overlay@.state),
                native_vks_wf(overlay@.state),
                cache_ok(verifying_keys.entries@, overlay@.state),
                st0 == old(overlay)@.state,
                slot == time_keeper.verifying_slot,
                n_calls <= u32::MAX,
                run_calls(st0, cv, cv.len() as int, slot) == (overlay@.state, None::<Error>),
                msg == tx_sig_msg(tx@),
                sig_table@.len() == n_calls,
                zkp_table@.len() == n_calls,
                forall|a: int|
                    0 <= a < n_calls ==> call_metadata_spec(cv[a]) == Ok::<_, Error>(
                        (zk_table_view((#[trigger] zkp_table@[a])@), sig_table@[a]@),
                    ),
                sig_tables(cv)[i as int] == sig_table@[i as int]@,
                tx@.signatures.len() == n_calls,
                tx@.signatures[i as int].len() == sig_table@[i as int]@.len(),
                forall|c: int|
                    0 <= c < b ==> (#[trigger] tx@.signatures[i as int][c]).tag == spec_sig_tag(
                        sig_tables(cv)[i as int][c],
                        tx_sig_msg(tx@),
                    ),
            decreases sig_table@[i as int]@.len() - b,
        {
            let key = sig_table[i][b];
            let expected = mix(key, msg);
            let tag = tx.signatures[i][b].tag;
            proof {
                assert(tx@.signatures[i as int][b as int] == tx.signatures@[i as int]@[
                    b as int
                ]);
            }
            if tag != expected {
                proof {
                    assert(tx@.signatures[i as int][b as int].tag != spec_sig_tag(
                        sig_tables(cv)[i as int][b as int],
                        tx_sig_msg(tx@),
                    ));
                    assert(!sigs_ok(tx@));
                }
                return Err(Error::InvalidSignature);
            }
            b = b + 1;
        }
        i = i + 1;
    }
    proof {
        assert(sigs_ok(tx@));
    }
    if tx.proofs.len() != n_calls {
        proof {
            assert(!proofs_arity_ok(tx@));
        }
        return Err(Error::ArityMismatch);
    }
    proof {
        assert forall|a: int|
            0 <= a < n_calls implies call_metadata_spec(cv[a]) is Ok && zk_tables(cv)[a]
            == zk_table_view((#[trigger] zkp_table@[a])@) by {
            assert(call_metadata_spec(cv[a]) == Ok::<_, Error>(
                (zk_table_view(zkp_table@[a]@), sig_table@[a]@),
            ));
        }
    }
    let mut i2: usize = 0;
    while i2 < n_calls
        invariant
            i2 <= n_calls,
            n_calls == tx.calls@.len(),
            cv == tx@.calls,
            overlay@.base_hashes == old(overlay)@.base_hashes,
            overlay@.staged == old(overlay)@.staged,
            overlay@.checkpoints == old(overlay)@.checkpoints,
            overlay@.state.vks == old(overlay)@.state.vks,
            state_wf(overlay@.state),
            native_vks_wf(overlay@.state),
            cache_ok(verifying_keys.entries@, overlay@.state),
            st0 == old(overlay)@.state,
            slot == time_keeper.verifying_slot,
            n_calls <= u32::MAX,
            run_calls(st0, cv, cv.len() as int, slot) == (overlay@.state, None::<Error>),
            tx@.signatures.len() == n_calls,
            sigs_ok(tx@),
            tx@.proofs.len() == n_calls,
            zkp_table@.len() == n_calls,
            sig_table@.len() == n_calls,
            forall|a: int|
                0 <= a < n_calls ==> call_metadata_spec(cv[a]) == Ok::<_, Error>(
                    (zk_table_view((#[trigger] zkp_table@[a])@), sig_table@[a]@),
                ),
            forall|a: int|
                0 <= a < i2 ==> (#[trigger] tx@.proofs[a]).len() == zk_tables(cv)[a].len(),
        decreases n_calls - i2,
    {
        proof {
            assert(call_metadata_spec(cv[i2 as int]) == Ok::<_, Error>(
                (zk_table_view(zkp_table@[i2 as int]@), sig_table@[i2 as int]@),
            ));
            assert(zk_tables(cv)[i2 as int] == zk_table_view(zkp_table@[i2 as int]@));
        }
        if tx.proofs[i2].len() != zkp_table[i2].len() {
            proof {
                assert(tx@.proofs[i2 as int].len() != zk_tables(cv)[i2 as int].len());
                assert(!proofs_arity_ok(tx@));
            }
            return Err(Error::ArityMismatch);
        }
        i2 = i2 + 1;
    }
    proof {
        assert forall|a: int|
            0 <= a < n_calls implies (#[trigger] tx@.proofs[a]).len() == zk_tables(
            cv,
        )[a].len() by {}
        assert(proofs_arity_ok(tx@));
    }
    let mut i3: usize = 0;
    while i3 < n_calls
        invariant
            i3 <= n_calls,
            n_calls == tx.calls@.len(),
            cv == tx@.calls,
            overlay@.base_hashes == old(overlay)@.base_hashes,
            overlay@.staged == old(overlay)@.staged,
            overlay@.checkpoints == old(overlay)@.checkpoints,
            overlay@.state.vks == old(overlay)@.state.vks,
            state_wf(overlay@.state),
            native_vks_wf(overlay@.state),
            cache_ok(verifying_keys.entries@, overlay@.state),
            st0 == old(overlay)@.state,
            slot == time_keeper.verifying_slot,
            n_calls <= u32::MAX,
            run_calls(st0, cv, cv.len() as int, slot) == (overlay@.state, None::<Error>),
            tx@.signatures.len() == n_calls,
            sigs_ok(tx@),
            proofs_arity_ok(tx@),
            tx@.proofs.len() == n_calls,
            zkp_table@.len() == n_calls,
            sig_table@.len() == n_calls,
            vk_table@.len() == n_calls,
            forall|a: int|
                0 <= a < n_calls ==> call_metadata_spec(cv[a]) == Ok::<_, Error>(
                    (zk_table_view((#[trigger] zkp_table@[a])@), sig_table@[a]@),
                ),
            forall|a: int|
                0 <= a < n_calls ==> (#[trigger] tx@.proofs[a]).len() == zk_tables(cv)[a].len(),
            forall|a: int|
                0 <= a < n_calls ==> (#[trigger] vk_table@[a])@.len() == zkp_table@[a]@.len(),
            forall|a: int, b: int|
                0 <= a < n_calls && 0 <= b < vk_table@[a]@.len() ==> (
                #[trigger] vk_table@[a]@[b]) == spec_vk_of(
                    cv[a].contract_id,
                    zk_table_view(zkp_table@[a]@)[b].0,
                ),
            forall|a: int, b: int|
                0 <= a < i3 && 0 <= b < zk_tables(cv)[a].len() ==> (
                #[trigger] tx@.proofs[a][b]).payload == spec_proof_tag(
                    spec_vk_of(cv[a].contract_id, zk_tables(cv)[a][b].0),
                    zk_tables(cv)[a][b].1,
                ),
        decreases n_calls - i3,
    {
        proof {
            assert(call_metadata_spec(cv[i3 as int]) == Ok::<_, Error>(
                (zk_table_view(zkp_table@[i3 as int]@), sig_table@[i3 as int]@),
            ));
            assert(zk_tables(cv)[i3 as int] == zk_table_view(zkp_table@[i3 as int]@));
        }
        let row_len = zkp_table[i3].len();
        let mut b: usize = 0;
        while b < row_len
            invariant
                i3 < n_calls,
                b <= row_len,
                n_calls == tx.calls@.len(),
                cv == tx@.calls,
                overlay@.base_hashes == old(overlay)@.base_hashes,
                overlay@.staged == old(overlay)@.staged,
                overlay@.checkpoints == old(overlay)@.checkpoints,
                overlay@.state.vks == old(overlay)@.state.vks,
                state_wf(overlay@.state),
                native_vks_wf(overlay@.state),
                cache_ok(verifying_keys.entries@, overlay@.state),
                st0 == old(overlay)@.state,
                slot == time_keeper.verifying_slot,
                n_calls <= u32::MAX,
                run_calls(st0, cv, cv.len() as int, slot) == (overlay@.state, None::<Error>),
                tx@.signatures.len() == n_calls,
                sigs_ok(tx@),
                proofs_arity_ok(tx@),
                tx@.proofs.len() == n_calls,
                zkp_table@.len() == n_calls,
                vk_table@.len() == n_calls,
                row_len == zkp_table@[i3 as int]@.len(),
                zk_tables(cv)[i3 as int] == zk_table_view(zkp_table@[i3 as int]@),
                tx@.proofs[i3 as int].len() == zk_tables(cv)[i3 as int].len(),
                vk_table@[i3 as int]@.len() == row_len,
                forall|c: int|
                    0 <= c < row_len ==> (#[trigger] vk_table@[i3 as int]@[c]) == spec_vk_of(
                        cv[i3 as int].contract_id,
                        zk_table_view(zkp_table@[i3 as int]@)[c].0,
                    ),
                forall|c: int|
                    0 <= c < b ==> (#[trigger] tx@.proofs[i3 as int][c]).payload
                        == spec_proof_tag(
                        spec_vk_of(cv[i3 as int].contract_id, zk_tables(cv)[i3 as int][c].0),
                        zk_tables(cv)[i3 as int][c].1,
                    ),
            decreases row_len - b,
        {
            let vk = vk_table[i3][b];
            let expected = proof_tag(vk, &zkp_table[i3][b].1);
            let payload = tx.proofs[i3][b].payload;
            proof {
                assert(tx@.proofs[i3 as int][b as int] == tx.proofs@[i3 as int]@[b as int]);
                assert(zk_table_view(zkp_table@[i3 as int]@)[b as int] == (
                    zkp_table@[i3 as int]@[b as int].0,
                    zkp_table@[i3 as int]@[b as int].1@,
                ));
            }
            if payload != expected {
                proof {
                    assert(tx@.proofs[i3 as int][b as int].payload != spec_proof_tag(
                        spec_vk_of(
                            cv[i3 as int].contract_id,
                            zk_tables(cv)[i3 as int][b as int].0,
                        ),
                        zk_tables(cv)[i3 as int][b as int].1,
                    ));
                    assert(!proofs_ok(tx@));
                }
                return Err(Error::InvalidZkProof);
            }
            b = b + 1;
        }
        i3 = i3 + 1;
    }
    proof {
        assert(proofs_ok(tx@));
    }
    Ok(())
}

// ---------------------------------------------------------------------
// Transaction batches, proposals and blocks
// ---------------------------------------------------------------------

/// Run the first `k` transactions of a batch: a failing transaction is
/// rolled back and recorded, the rest still apply.
pub open spec fn run_txs(st: StateV, txs: Seq<TxV>, k: int, slot: u64) -> (StateV, Seq<TxV>)
    decreases k,
{
    if k <= 0 {
        (st, Seq::empty())
    } else {
        let prev = run_txs(st, txs, k - 1, slot);
        let out = tx_outcome(prev.0, txs[k - 1], slot);
        if out.1 is Some {
            (prev.0, prev.1.push(txs[k - 1]))
        } else {
            (out.0, prev.1)
        }
    }
}

/// Batch runs keep the state well formed and the published keys
/// untouched.
pub proof fn lemma_run_txs_wf(st: StateV, txs: Seq<TxV>, k: int, slot: u64)
    requires
        0 <= k,
        state_wf(st),
    ensures
        run_txs(st, txs, k, slot).0.vks == st.vks,
        state_wf(run_txs(st, txs, k, slot).0),
    decreases k,
{
    if k > 0 {
        lemma_run_txs_wf(st, txs, k - 1, slot);
        let prev = run_txs(st, txs, k - 1, slot);
        let tx = txs[k - 1];
        if tx_outcome(prev.0, tx, slot).1 is None {
            if tx.calls.len() <= u32::MAX {
                lemma_run_calls_wf(prev.0, tx.calls, tx.calls.len() as int, slot);
            }
        }
    }
}

/// Law: a transaction that fails verification commits nothing — the
/// chain state after its slot in the batch is exactly the state before
/// it, so none of its nullifiers or minted coins reach the store
/// through it.
pub proof fn lemma_no_phantom_commit(st: StateV, txs: Seq<TxV>, k: int, slot: u64)
    requires
        0 <= k < txs.len(),
        tx_outcome(run_txs(st, txs, k, slot).0, txs[k], slot).1 is Some,
    ensures
        run_txs(st, txs, k + 1, slot).0 == run_txs(st, txs, k, slot).0,
        run_txs(st, txs, k + 1, slot).1 == run_txs(st, txs, k, slot).1.push(txs[k]),
{
}

/// Law: the spent-nullifier set of a well-formed state never holds a
/// nullifier twice, so each nullifier marks at most one spend across
/// the chain.
pub proof fn lemma_at_most_once_nullifier(st: StateV)
    requires
        state_wf(st),
    ensures
        forall|i: int, j: int|
            0 <= i < j < st.nullifiers.len() ==> st.nullifiers[i] != st.nullifiers[j],
{
}

/// Law: for every applied transaction, the signature lists match the
/// calls one for one, and each inner list matches the signer list its
/// call's metadata declares.
pub proof fn lemma_signature_count(st: StateV, tx: TxV, slot: u64)
    requires
        tx_outcome(st, tx, slot).1 is None,
    ensures
        tx.signatures.len() == tx.calls.len(),
        forall|i: int|
            0 <= i < tx.calls.len() ==> (#[trigger] tx.signatures[i]).len() == sig_tables(
                tx.calls,
            )[i].len(),
{
    assert(sigs_ok(tx));
}

/// Law: adjacent committed blocks carry strictly increasing slots.
pub proof fn lemma_slot_monotonicity(c: crate::state::ChainV)
    requires
        chain_wf(c),
    ensures
        forall|i: int|
            0 <= i < c.blocks.len() - 1 ==> (#[trigger] c.blocks[i]).header.slot < c.blocks[
                i + 1
            ].header.slot,
{
}

/// Validate a batch of transactions in sequence and apply the valid
/// ones; the failing ones are rolled back and returned.
pub fn verify_transactions(
    overlay: &mut Overlay,
    time_keeper: &TimeKeeper,
    txs: &Vec<Transaction>,
) -> (r: Result<Vec<Transaction>, Error>)
    requires
        state_wf(old(overlay)@.state),
        native_vks_wf(old(overlay)@.state),
    ensures
        final(overlay)@.base_hashes == old(overlay)@.base_hashes,
        final(overlay)@.staged == old(overlay)@.staged,
        final(overlay)@.checkpoints == old(overlay)@.checkpoints,
        final(overlay)@.state.vks == old(overlay)@.state.vks,
        state_wf(final(overlay)@.state),
        native_vks_wf(final(overlay)@.state),
        match r {
            Ok(err_txs) => run_txs(
                old(overlay)@.state,
                txs_view(txs@),
                txs@.len() as int,
                time_keeper.verifying_slot,
            ) == (final(overlay)@.state, txs_view(err_txs@)),
            Err(_) => false,
        },
{
    let slot = time_keeper.verifying_slot;
    let ghost st0 = overlay@.state;
    let ghost tv = txs_view(txs@);
    let mut erroneous: Vec<Transaction> = Vec::new();
    let mut vks = VkCache::new();
    let mut i: usize = 0;
    proof {
        assert(txs_view(erroneous@) =~= Seq::<TxV>::empty());
    }
    while i < txs.len()
        invariant
            i <= txs@.len(),
            tv == txs_view(txs@),
            tv.len() == txs@.len(),
            slot == time_keeper.verifying_slot,
            st0 == old(overlay)@.state,
            state_wf(st0),
            run_txs(st0, tv, i as int, slot) == (overlay@.state, txs_view(erroneous@)),
            state_wf(overlay@.state),
            native_vks_wf(overlay@.state),
            overlay@.base_hashes == old(overlay)@.base_hashes,
            overlay@.staged == old(overlay)@.staged,
            overlay@.checkpoints == old(overlay)@.checkpoints,
            overlay@.state.vks == old(overlay)@.state.vks,
            cache_ok(vks.entries@, overlay@.state),
        decreases txs@.len() - i,
    {
        let ghost pre_state = overlay@.state;
        let ghost pre_err = txs_view(erroneous@);
        let ghost base_staged = overlay@.staged;
        let staged_len = overlay.staged.len();
        proof {
            assert(base_staged.len() == staged_len);
        }
        overlay.checkpoint();
        let outcome = verify_transaction(overlay, time_keeper, &txs[i], &mut vks);
        proof {
            assert(tv[i as int] == txs@[i as int]@);
        }
        match outcome {
            Ok(()) => {
                match overlay.discard_checkpoint() {
                    Ok(()) => {},
                    Err(_) => {
                        proof {
                            assert(false);
                        }
                    },
                }
                proof {
                    assert(run_txs(st0, tv, i + 1, slot) == (
                        overlay@.state,
                        txs_view(erroneous@),
                    ));
                    assert(overlay@.checkpoints =~~= old(overlay)@.checkpoints);
                }
            },
            Err(_) => {
                erroneous.push(crate::types::clone_transaction(&txs[i]));
                match overlay.revert_to_checkpoint() {
                    Ok(()) => {},
                    Err(_) => {
                        proof {
                            assert(false);
                        }
                    },
                }
                proof {
                    assert(overlay@.staged =~~= base_staged.take(staged_len as int));
                    assert(base_staged.take(staged_len as int) =~~= base_staged);
                    assert(overlay@.checkpoints =~~= old(overlay)@.checkpoints);
                    assert(overlay@.state == pre_state);
                    assert(txs_view(erroneous@) =~~= pre_err.push(tv[i as int]));
                    assert(run_txs(st0, tv, i + 1, slot) == (
                        overlay@.state,
                        txs_view(erroneous@),
                    ));
                }
            },
        }
        i = i + 1;
    }
    Ok(erroneous)
}

/// The outcome of verifying a proposal transaction: at genesis only
/// the canonical empty transaction passes; elsewhere the proposal must
/// be a single consensus-proposal call that verifies.
pub open spec fn proposal_outcome(st: StateV, tx: TxV, slot: u64) -> (StateV, Option<Error>) {
    if slot == 0 {
        if tx == tx_default() {
            (st, None)
        } else {
            (st, Some(Error::MalformedEncoding))
        }
    } else if tx.calls.len() != 1 || tx.calls[0].contract_id
        != crate::runtime::CONSENSUS_CONTRACT_ID || tx.calls[0].data.len() == 0 || tx.calls[0].data[0]
        != crate::runtime::CONSENSUS_PROPOSAL {
        (st, Some(Error::MalformedEncoding))
    } else {
        tx_outcome(st, tx, slot)
    }
}

/// Validate contract execution, signatures, and proofs for a proposal
/// transaction, and apply it to the overlay.
pub fn verify_proposal_transaction(
    overlay: &mut Overlay,
    time_keeper: &TimeKeeper,
    tx: &Transaction,
) -> (r: Result<(), Error>)
    requires
        state_wf(old(overlay)@.state),
        native_vks_wf(old(overlay)@.state),
    ensures
        final(overlay)@.base_hashes == old(overlay)@.base_hashes,
        final(overlay)@.staged == old(overlay)@.staged,
        final(overlay)@.checkpoints == old(overlay)@.checkpoints,
        final(overlay)@.state.vks == old(overlay)@.state.vks,
        state_wf(final(overlay)@.state),
        native_vks_wf(final(overlay)@.state),
        match r {
            Ok(()) => proposal_outcome(old(overlay)@.state, tx@, time_keeper.verifying_slot)
                == (final(overlay)@.state, None::<Error>),
            Err(e) => proposal_outcome(old(overlay)@.state, tx@, time_keeper.verifying_slot)
                == (final(overlay)@.state, Some(e)),
        },
{
    if time_keeper.verifying_slot == 0 {
        if tx.calls.len() == 0 && tx.proofs.len() == 0 && tx.signatures.len() == 0 {
            proof {
                assert(tx@ =~~= tx_default());
            }
            return Ok(());
        }
        proof {
            if tx.calls.len() != 0 {
                assert(tx@.calls.len() != 0);
            } else if tx.proofs.len() != 0 {
                assert(tx@.proofs.len() != 0);
            } else {
                assert(tx@.signatures.len() != 0);
            }
            assert(tx@ != tx_default());
        }
        return Err(Error::MalformedEncoding);
    }
    if tx.calls.len() != 1 {
        return Err(Error::MalformedEncoding);
    }
    proof {
        assert(tx@.calls[0] == tx.calls@[0]@);
    }
    if tx.calls[0].contract_id != crate::runtime::CONSENSUS_CONTRACT_ID {
        return Err(Error::MalformedEncoding);
    }
    if tx.calls[0].data.len() == 0 {
        return Err(Error::MalformedEncoding);
    }
    if tx.calls[0].data[0] != crate::runtime::CONSENSUS_PROPOSAL {
        return Err(Error::MalformedEncoding);
    }
    let mut vks = VkCache::new();
    verify_transaction(overlay, time_keeper, tx, &mut vks)
}

/// Whether a block's header correctly extends its predecessor and
/// commits to its own transactions.
pub open spec fn header_ok(b: crate::types::BlockV, prev: crate::types::BlockV) -> bool {
    &&& b.header.previous == spec_block_hash(prev.header)
    &&& b.header.slot > prev.header.slot
    &&& b.header.tx_root == spec_tx_root(b.txs)
}

/// The outcome of verifying a candidate block against the overlay.
pub open spec fn block_outcome(
    o: OverlayV,
    b: crate::types::BlockV,
    prev: Option<crate::types::BlockV>,
    slot: u64,
    testing_mode: bool,
) -> (OverlayV, Option<Error>) {
    if crate::state::overlay_sees_hash(o, spec_block_hash(b.header)) {
        (o, Some(Error::BlockAlreadyExists))
    } else if b.header.slot != slot {
        (o, Some(Error::VerifyingSlotMismatch))
    } else if b.header.slot != 0 && prev is None {
        (o, Some(Error::BlockPreviousMissing))
    } else if b.header.slot != 0 && !header_ok(b, prev->Some_0) {
        (o, Some(Error::MalformedEncoding))
    } else {
        let prop = if !testing_mode {
            proposal_outcome(o.state, b.proposal, slot)
        } else {
            (o.state, None)
        };
        if prop.1 is Some {
            ((OverlayV { state: prop.0, ..o }), prop.1)
        } else {
            let st2 = run_txs(prop.0, b.txs, b.txs.len() as int, slot).0;
            ((OverlayV { state: st2, staged: o.staged.push(b), ..o }), None)
        }
    }
}

/// Validate a candidate block and stage it in the overlay: identity
/// and slot checks, header validation against the previous block, the
/// proposal transaction (skipped in testing mode), then the user
/// transactions — failing ones are rolled back while the rest apply —
/// and finally the block itself.  A block the overlay already sees is
/// refused without touching anything.
pub fn verify_block(
    overlay: &mut Overlay,
    time_keeper: &TimeKeeper,
    block: &Block,
    previous: Option<&Block>,
    testing_mode: bool,
) -> (r: Result<(), Error>)
    requires
        state_wf(old(overlay)@.state),
        native_vks_wf(old(overlay)@.state),
    ensures
        final(overlay)@.base_hashes == old(overlay)@.base_hashes,
        final(overlay)@.checkpoints == old(overlay)@.checkpoints,
        final(overlay)@.state.vks == old(overlay)@.state.vks,
        state_wf(final(overlay)@.state),
        native_vks_wf(final(overlay)@.state),
        ({
            let prev_v = match previous {
                Some(p) => Some(p@),
                None => None,
            };
            let out = block_outcome(
                old(overlay)@,
                block@,
                prev_v,
                time_keeper.verifying_slot,
                testing_mode,
            );
            match r {
                Ok(()) => out == (final(overlay)@, None::<Error>),
                Err(e) => out == (final(overlay)@, Some(e)),
            }
        }),
{
    let ghost o0 = overlay@;
    if overlay.has_block(block) {
        proof {
            assert(overlay@ =~~= o0);
        }
        return Err(Error::BlockAlreadyExists);
    }
    if block.header.slot != time_keeper.verifying_slot {
        proof {
            assert(overlay@ =~~= o0);
        }
        return Err(Error::VerifyingSlotMismatch);
    }
    if block.header.slot != 0 {
        let prev = match previous {
            Some(p) => p,
            None => {
                proof {
                    assert(overlay@ =~~= o0);
                }
                return Err(Error::BlockPreviousMissing);
            },
        };
        let prev_hash = prev.blockhash();
        let root = crate::types::compute_tx_root(&block.txs);
        if block.header.previous != prev_hash || block.header.slot <= prev.header.slot
            || block.header.tx_root != root {
            proof {
                assert(overlay@ =~~= o0);
                assert(!header_ok(block@, prev@));
            }
            return Err(Error::MalformedEncoding);
        }
        proof {
            assert(header_ok(block@, prev@));
        }
    }
    if !testing_mode {
        match verify_proposal_transaction(overlay, time_keeper, &block.proposal) {
            Ok(()) => {},
            Err(e) => {
                proof {
                    assert(overlay@ =~~= (OverlayV { state: overlay@.state, ..o0 }));
                }
                return Err(e);
            },
        }
    }
    match verify_transactions(overlay, time_keeper, &block.txs) {
        Ok(_erroneous) => {},
        Err(_) => {
            proof {
                assert(false);
            }
            return Err(Error::MalformedEncoding);
        },
    }
    let staged = crate::types::clone_transaction(&block.proposal);
    let block_copy = Block {
        header: block.header,
        proposal: staged,
        txs: clone_tx_vec(&block.txs),
    };
    proof {
        assert(block_copy@ =~~= block@);
    }
    overlay.add_block(block_copy);
    proof {
        assert(overlay@ =~~= (OverlayV {
            state: overlay@.state,
            staged: o0.staged.push(block@),
            ..o0
        }));
    }
    Ok(())
}

/// Deep copy of a transaction list.
fn clone_tx_vec(txs: &Vec<Transaction>) -> (r: Vec<Transaction>)
    ensures
        txs_view(r@) == txs_view(txs@),
{
    let mut out: Vec<Transaction> = Vec::new();
    let mut i: usize = 0;
    while i < txs.len()
        invariant
            i <= txs@.len(),
            out@.len() == i,
            forall|k: int| 0 <= k < i ==> (#[trigger] out@[k])@ == txs@[k]@,
        decreases txs@.len() - i,
    {
        out.push(crate::types::clone_transaction(&txs[i]));
        i = i + 1;
    }
    proof {
        assert(txs_view(out@) =~~= txs_view(txs@));
    }
    out
}

} // verus!
