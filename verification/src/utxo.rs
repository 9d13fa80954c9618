//! The unspent-output tracker: an in-memory set keyed by a 64-bit digest of
//! `(transaction id, output index)`, mutated block by block in two phases —
//! insert, then deferred removal — so a transaction can spend an output
//! created earlier in the same block.

use vstd::prelude::*;
use std::collections::HashMap;
use vstd::wrapping::u64_specs;
use crate::block::{sum_output_sats, TxInSummary, TxSummary};
use crate::hash::Hash256;

verus! {

broadcast use vstd::std_specs::hash::group_hash_axioms;

/// Why the unspent-output set rejected an operation.
#[derive(Clone, Copy, PartialEq, Eq, Debug, Structural)]
pub enum UtxoError {
    /// An output's digest was already present at a height with no documented
    /// duplicate coinbase.
    KeyCollision,
    /// A spent output was never inserted; the tracker only answers for a
    /// contiguous run of blocks from the genesis block.
    MissingInput,
    /// A transaction's outputs claim more than its inputs supply.
    NegativeFee,
    /// A transaction's input values exceed what a 64-bit amount can hold.
    ValueOverflow,
}

/// One mixing round of the key digest: fold a word in, multiply by the
/// 64-bit FNV prime, and keep the low 64 bits.
pub open spec fn spec_mix(a: u64, b: u64) -> u64 {
    u64_specs::wrapping_mul(a ^ b, 0x100_0000_01b3)
}

/// The 64-bit digest keying an output: the transaction id's four words and
/// the output index folded into an FNV-style accumulator.
pub open spec fn spec_utxo_key(txid: Hash256, index: u32) -> u64 {
    spec_mix(
        spec_mix(spec_mix(spec_mix(spec_mix(0xcbf2_9ce4_8422_2325, txid.w0), txid.w1), txid.w2), txid.w3),
        index as u64,
    )
}

/// The digest keying output `index` of transaction `txid`.
pub fn utxo_key(txid: &Hash256, output_index: u32) -> (r: u64)
    ensures
        r == spec_utxo_key(*txid, output_index),
{
    let mut k: u64 = 0xcbf2_9ce4_8422_2325;
    k = (k ^ txid.w0).wrapping_mul(0x100_0000_01b3);
    k = (k ^ txid.w1).wrapping_mul(0x100_0000_01b3);
    k = (k ^ txid.w2).wrapping_mul(0x100_0000_01b3);
    k = (k ^ txid.w3).wrapping_mul(0x100_0000_01b3);
    k = (k ^ output_index as u64).wrapping_mul(0x100_0000_01b3);
    k
}

/// The two heights whose blocks duplicate an earlier coinbase transaction by
/// design; only there is a key collision tolerated, the later value
/// overwriting.
pub open spec fn spec_duplicate_coinbase_height(height: u32) -> bool {
    height == 91842 || height == 91880
}

/// The in-memory unspent-output set: the active map from output digest to
/// satoshi value, and the keys staged for deferred removal.
pub struct UtxoSet {
    /// Value in satoshis of each unspent output, by digest.
    pub active: HashMap<u64, u64>,
    /// Digests staged for removal at the end of the current block.
    pub to_remove: Vec<u64>,
}

impl UtxoSet {
    /// The staged keys as a set.
    pub open spec fn staged(&self) -> Set<u64> {
        self.to_remove@.to_set()
    }

    /// An empty set with nothing staged.
    pub fn new() -> (r: UtxoSet)
        ensures
            r.active@ == Map::<u64, u64>::empty(),
            r.staged() =~= Set::<u64>::empty(),
    {
        UtxoSet { active: HashMap::new(), to_remove: Vec::new() }
    }

    /// Inserts an output's value under its digest. A digest already present
    /// is a fatal consistency error — and leaves the set unchanged — except
    /// at the two documented duplicate-coinbase heights, where the new value
    /// overwrites.
    pub fn add_output(
        &mut self,
        txid: &Hash256,
        output_index: u32,
        value_sats: u64,
        block_height: u32,
    ) -> (r: Result<(), UtxoError>)
        ensures
            ({
                let k = spec_utxo_key(*txid, output_index);
                if old(self).active@.contains_key(k) && !spec_duplicate_coinbase_height(
                    block_height,
                ) {
                    &&& r == Err::<(), UtxoError>(UtxoError::KeyCollision)
                    &&& final(self).active@ == old(self).active@
                } else {
                    &&& r == Ok::<(), UtxoError>(())
                    &&& final(self).active@ == old(self).active@.insert(k, value_sats)
                }
            }),
            final(self).staged() == old(self).staged(),
    {
        let key = utxo_key(txid, output_index);
        if self.active.contains_key(&key) && block_height != 91842 && block_height != 91880 {
            return Err(UtxoError::KeyCollision);
        }
        self.active.insert(key, value_sats);
        Ok(())
    }

    /// Stages an output's digest for deletion without removing it yet.
    pub fn mark_for_removal(&mut self, txid: &Hash256, output_index: u32)
        ensures
            final(self).active@ == old(self).active@,
            final(self).to_remove@ == old(self).to_remove@.push(
                spec_utxo_key(*txid, output_index),
            ),
            final(self).staged() =~= old(self).staged().insert(
                spec_utxo_key(*txid, output_index),
            ),
    {
        let key = utxo_key(txid, output_index);
        self.to_remove.push(key);
        proof {
            old(self).to_remove@.lemma_push_to_set_commute(key);
        }
    }

    /// The value of an output still in the active set. A caller must treat
    /// a miss as fatal: the tracker holds no history from before the run.
    pub fn get_value(&self, txid: &Hash256, output_index: u32) -> (r: Option<u64>)
        ensures
            r == (if self.active@.contains_key(spec_utxo_key(*txid, output_index)) {
                Some(self.active@[spec_utxo_key(*txid, output_index)])
            } else {
                None::<u64>
            }),
    {
        let key = utxo_key(txid, output_index);
        match self.active.get(&key) {
            Some(v) => Some(*v),
            None => None,
        }
    }

    /// Deletes every staged key and clears the staging set.
    pub fn commit_removals(&mut self)
        ensures
            final(self).active@ == old(self).active@.remove_keys(old(self).staged()),
            final(self).staged() =~= Set::<u64>::empty(),
    {
        let ghost orig = self.active@;
        let ghost stagedv = self.to_remove@;
        let mut i: usize = 0;
        proof {
            assert(orig.remove_keys(stagedv.take(0).to_set()) =~= orig);
        }
        while i < self.to_remove.len()
            invariant
                i <= self.to_remove@.len(),
                stagedv == self.to_remove@,
                self.active@ == orig.remove_keys(stagedv.take(i as int).to_set()),
            decreases self.to_remove@.len() - i,
        {
            let ghost pre = self.active@;
            let key = self.to_remove[i];
            self.active.remove(&key);
            proof {
                assert(stagedv.take(i + 1).to_set() =~= stagedv.take(i as int).to_set().insert(
                    stagedv[i as int],
                )) by {
                    assert forall|x: u64| #[trigger] stagedv.take(i + 1).to_set().contains(x)
                        implies stagedv.take(i as int).to_set().insert(
                        stagedv[i as int],
                    ).contains(x) by {
                        let j = choose|j: int| 0 <= j < i + 1 && #[trigger] stagedv.take(i + 1)[j] == x;
                        if j < i {
                            assert(stagedv.take(i as int)[j] == x);
                        }
                    }
                    assert forall|x: u64| stagedv.take(i as int).to_set().insert(
                        stagedv[i as int],
                    ).contains(x) implies #[trigger] stagedv.take(i + 1).to_set().contains(
                        x,
                    ) by {
                        if stagedv.take(i as int).to_set().contains(x) {
                            let j = choose|j: int|
                                0 <= j < i && #[trigger] stagedv.take(i as int)[j] == x;
                            assert(stagedv.take(i + 1)[j] == x);
                        } else {
                            assert(stagedv.take(i + 1)[i as int] == x);
                        }
                    }
                }
                assert(self.active@ =~= orig.remove_keys(stagedv.take(i + 1).to_set()));
            }
            i = i + 1;
        }
        proof {
            assert(stagedv.take(stagedv.len() as int) =~= stagedv);
        }
        self.to_remove = Vec::new();
    }

    /// How many outputs are unspent.
    pub fn len(&self) -> (r: usize)
        ensures
            r == self.active@.len(),
    {
        self.active.len()
    }
}

/// The mathematical sum of the active-set values of `inputs`, or the error
/// owed when one of them was never inserted.
pub open spec fn spec_input_total(active: Map<u64, u64>, inputs: Seq<TxInSummary>) -> Result<
    int,
    UtxoError,
>
    decreases inputs.len(),
{
    if inputs.len() == 0 {
        Ok(0)
    } else {
        let k = spec_utxo_key(inputs.last().prev_txid, inputs.last().prev_vout);
        if !active.contains_key(k) {
            Err(UtxoError::MissingInput)
        } else {
            match spec_input_total(active, inputs.drop_last()) {
                Ok(s) => Ok(s + active[k]),
                Err(e) => Err(e),
            }
        }
    }
}

/// The fee a transaction owes: its input total minus its output total, or
/// the error owed when an input is missing, the difference is negative, or
/// the input total leaves 64 bits.
pub open spec fn spec_tx_fee(active: Map<u64, u64>, tx: TxSummary) -> Result<int, UtxoError> {
    match spec_input_total(active, tx.inputs@) {
        Err(e) => Err(e),
        Ok(s) => if s > u64::MAX {
            Err(UtxoError::ValueOverflow)
        } else if s < sum_output_sats(tx.outputs@) {
            Err(UtxoError::NegativeFee)
        } else {
            Ok(s - sum_output_sats(tx.outputs@))
        },
    }
}

/// The fee a transaction pays: its input values minus its output values,
/// both in satoshis. A missing input, a negative difference, or an input
/// total beyond 64 bits is a fatal inconsistency, never clamped.
pub fn transaction_fee(tx: &TxSummary, utxo: &UtxoSet) -> (r: Result<u64, UtxoError>)
    ensures
        spec_tx_fee(utxo.active@, *tx) == (match r {
            Ok(f) => Ok::<int, UtxoError>(f as int),
            Err(e) => Err::<int, UtxoError>(e),
        }),
{
    let mut total: u128 = 0;
    let mut i: usize = 0;
    proof {
        assert(tx.inputs@.take(0) =~= Seq::<TxInSummary>::empty());
    }
    while i < tx.inputs.len()
        invariant
            i <= tx.inputs@.len(),
            total <= i * 0xffff_ffff_ffff_ffffu64,
            spec_input_total(utxo.active@, tx.inputs@.take(i as int)) == Ok::<int, UtxoError>(
                total as int,
            ),
            forall|j: int|
                i <= j < tx.inputs@.len() ==> tx.inputs@[j] == tx.inputs@.take(
                    tx.inputs@.len() as int,
                )[j],
        decreases tx.inputs@.len() - i,
    {
        proof {
            assert(tx.inputs@.take(i + 1).drop_last() =~= tx.inputs@.take(i as int));
            assert(tx.inputs@.take(i + 1).last() == tx.inputs@[i as int]);
        }
        let inp = &tx.inputs[i];
        let value = match utxo.get_value(&inp.prev_txid, inp.prev_vout) {
            Some(v) => v,
            None => {
                proof {
                    lemma_input_total_err(utxo.active@, tx.inputs@, i as int);
                }
                return Err(UtxoError::MissingInput);
            },
        };
        total = total + value as u128;
        i = i + 1;
    }
    proof {
        assert(tx.inputs@.take(tx.inputs@.len() as int) =~= tx.inputs@);
    }
    if total > 0xffff_ffff_ffff_ffff {
        return Err(UtxoError::ValueOverflow);
    }
    let spent = crate::block::output_value_total(&tx.outputs);
    if (total as u128) < spent {
        return Err(UtxoError::NegativeFee);
    }
    Ok((total - spent) as u64)
}

/// The active map after inserting one transaction's outputs in order,
/// keyed by output position and skipping data-carrier outputs, or the
/// collision error the insertion hits first.
pub open spec fn spec_add_outputs_tx(
    active: Map<u64, u64>,
    txid: Hash256,
    outs: Seq<crate::block::TxOutSummary>,
    height: u32,
) -> Result<Map<u64, u64>, UtxoError>
    decreases outs.len(),
{
    if outs.len() == 0 {
        Ok(active)
    } else {
        match spec_add_outputs_tx(active, txid, outs.drop_last(), height) {
            Err(e) => Err(e),
            Ok(a2) => {
                let k = spec_utxo_key(txid, (outs.len() - 1) as u32);
                if outs.last().is_op_return {
                    Ok(a2)
                } else if a2.contains_key(k) && !spec_duplicate_coinbase_height(height) {
                    Err(UtxoError::KeyCollision)
                } else {
                    Ok(a2.insert(k, outs.last().value_sats))
                }
            },
        }
    }
}

/// The active map after inserting every transaction's outputs of a block in
/// order, or the first collision error.
pub open spec fn spec_add_outputs_block(
    active: Map<u64, u64>,
    txs: Seq<TxSummary>,
    height: u32,
) -> Result<Map<u64, u64>, UtxoError>
    decreases txs.len(),
{
    if txs.len() == 0 {
        Ok(active)
    } else {
        match spec_add_outputs_block(active, txs.drop_last(), height) {
            Err(e) => Err(e),
            Ok(a2) => spec_add_outputs_tx(a2, txs.last().txid, txs.last().outputs@, height),
        }
    }
}

/// Inserts every output of every transaction of a block into the set, in
/// wire order, skipping provably unspendable data-carrier outputs. A
/// collision aborts immediately; the insertions already made stay, as the
/// whole build is abandoned on any error.
pub fn apply_block_outputs(utxo: &mut UtxoSet, block: &crate::block::BlockSummary, height: u32) -> (r:
    Result<(), UtxoError>)
    requires
        forall|i: int|
            0 <= i < block.txs@.len() ==> #[trigger] block.txs@[i].outputs@.len()
                <= 0x1_0000_0000,
    ensures
        final(utxo).staged() == old(utxo).staged(),
        match spec_add_outputs_block(old(utxo).active@, block.txs@, height) {
            Ok(m2) => r == Ok::<(), UtxoError>(()) && final(utxo).active@ == m2,
            Err(e) => r == Err::<(), UtxoError>(e),
        },
{
    let ghost orig = utxo.active@;
    let ghost txs = block.txs@;
    let mut i: usize = 0;
    proof {
        assert(txs.take(0) =~= Seq::<TxSummary>::empty());
    }
    while i < block.txs.len()
        invariant
            i <= txs.len(),
            txs == block.txs@,
            forall|t: int| 0 <= t < txs.len() ==> #[trigger] txs[t].outputs@.len() <= 0x1_0000_0000,
            utxo.staged() == old(utxo).staged(),
            orig == old(utxo).active@,
            spec_add_outputs_block(orig, txs.take(i as int), height) == Ok::<
                Map<u64, u64>,
                UtxoError,
            >(utxo.active@),
        decreases txs.len() - i,
    {
        let txid = block.txs[i].txid;
        let ghost mi = utxo.active@;
        let ghost outs = txs[i as int].outputs@;
        let mut j: usize = 0;
        proof {
            assert(outs.take(0) =~= Seq::<crate::block::TxOutSummary>::empty());
        }
        while j < block.txs[i].outputs.len()
            invariant
                j <= outs.len(),
                i < txs.len(),
                txs == block.txs@,
                outs == txs[i as int].outputs@,
                outs.len() <= 0x1_0000_0000,
                txid == txs[i as int].txid,
                orig == old(utxo).active@,
                utxo.staged() == old(utxo).staged(),
                spec_add_outputs_block(orig, txs.take(i as int), height) == Ok::<
                    Map<u64, u64>,
                    UtxoError,
                >(mi),
                spec_add_outputs_tx(mi, txid, outs.take(j as int), height) == Ok::<
                    Map<u64, u64>,
                    UtxoError,
                >(utxo.active@),
            decreases outs.len() - j,
        {
            proof {
                assert(outs.take(j + 1).drop_last() =~= outs.take(j as int));
                assert(outs.take(j + 1).last() == outs[j as int]);
            }
            let value = block.txs[i].outputs[j].value_sats;
            let data_carrier = block.txs[i].outputs[j].is_op_return;
            if !data_carrier {
                match utxo.add_output(&txid, j as u32, value, height) {
                    Ok(()) => {},
                    Err(e) => {
                        proof {
                            assert(spec_add_outputs_tx(mi, txid, outs.take(j + 1), height)
                                == Err::<Map<u64, u64>, UtxoError>(UtxoError::KeyCollision));
                            lemma_add_outputs_tx_prefix_err(mi, txid, outs, j + 1, height);
                            assert(txs.take(i + 1).drop_last() =~= txs.take(i as int));
                            assert(txs.take(i + 1).last() == txs[i as int]);
                            assert(spec_add_outputs_block(orig, txs.take(i + 1), height)
                                == Err::<Map<u64, u64>, UtxoError>(UtxoError::KeyCollision));
                            lemma_add_outputs_block_prefix_err(orig, txs, i + 1, height);
                            assert(txs.take(txs.len() as int) =~= txs);
                        }
                        return Err(e);
                    },
                }
            }
            j = j + 1;
        }
        proof {
            assert(outs.take(outs.len() as int) =~= outs);
            assert(txs.take(i + 1).drop_last() =~= txs.take(i as int));
            assert(txs.take(i + 1).last() == txs[i as int]);
        }
        i = i + 1;
    }
    proof {
        assert(txs.take(txs.len() as int) =~= txs);
    }
    Ok(())
}

/// An erring prefix of outputs keeps every longer prefix erring the same
/// way.
proof fn lemma_add_outputs_tx_prefix_err(
    active: Map<u64, u64>,
    txid: Hash256,
    outs: Seq<crate::block::TxOutSummary>,
    k: int,
    height: u32,
)
    requires
        0 <= k <= outs.len(),
        spec_add_outputs_tx(active, txid, outs.take(k), height) is Err,
    ensures
        spec_add_outputs_tx(active, txid, outs, height) == spec_add_outputs_tx(
            active,
            txid,
            outs.take(k),
            height,
        ),
    decreases outs.len(),
{
    if k < outs.len() {
        assert(outs.drop_last().take(k) =~= outs.take(k));
        lemma_add_outputs_tx_prefix_err(active, txid, outs.drop_last(), k, height);
        assert(outs.take(outs.len() as int) =~= outs);
    } else {
        assert(outs.take(k) =~= outs);
    }
}

/// An erring prefix of transactions keeps every longer prefix erring the
/// same way.
proof fn lemma_add_outputs_block_prefix_err(
    active: Map<u64, u64>,
    txs: Seq<TxSummary>,
    k: int,
    height: u32,
)
    requires
        0 <= k <= txs.len(),
        spec_add_outputs_block(active, txs.take(k), height) is Err,
    ensures
        spec_add_outputs_block(active, txs, height) == spec_add_outputs_block(
            active,
            txs.take(k),
            height,
        ),
    decreases txs.len(),
{
    if k < txs.len() {
        assert(txs.drop_last().take(k) =~= txs.take(k));
        lemma_add_outputs_block_prefix_err(active, txs.drop_last(), k, height);
        assert(txs.take(txs.len() as int) =~= txs);
    } else {
        assert(txs.take(k) =~= txs);
    }
}

/// The digests of the outputs one transaction spends, in input order.
pub open spec fn spec_tx_input_keys(tx: TxSummary) -> Seq<u64> {
    Seq::new(
        tx.inputs@.len(),
        |j: int| spec_utxo_key(tx.inputs@[j].prev_txid, tx.inputs@[j].prev_vout),
    )
}

/// The digests of every output spent by a block's non-coinbase
/// transactions, in wire order.
pub open spec fn spec_block_input_keys(txs: Seq<TxSummary>) -> Seq<u64>
    decreases txs.len(),
{
    if txs.len() <= 1 {
        Seq::empty()
    } else {
        spec_block_input_keys(txs.drop_last()) + spec_tx_input_keys(txs.last())
    }
}

/// Stages for removal every output spent by a block's non-coinbase
/// transactions; the coinbase spends nothing. Nothing is deleted until
/// [`UtxoSet::commit_removals`] runs, so a transaction can spend an output
/// created earlier in the same block.
pub fn mark_block_inputs(utxo: &mut UtxoSet, block: &crate::block::BlockSummary)
    ensures
        final(utxo).active@ == old(utxo).active@,
        final(utxo).to_remove@ == old(utxo).to_remove@ + spec_block_input_keys(block.txs@),
{
    let ghost base = utxo.to_remove@;
    let ghost txs = block.txs@;
    let mut i: usize = 1;
    proof {
        if txs.len() >= 1 {
            assert(spec_block_input_keys(txs.take(1)) =~= Seq::<u64>::empty());
        }
        assert(spec_block_input_keys(txs.take(0)) =~= Seq::<u64>::empty());
        assert(base + Seq::<u64>::empty() =~= base);
    }
    if block.txs.len() <= 1 {
        proof {
            assert(txs.take(txs.len() as int) =~= txs);
        }
        return ;
    }
    while i < block.txs.len()
        invariant
            1 <= i <= txs.len(),
            txs == block.txs@,
            utxo.active@ == old(utxo).active@,
            utxo.to_remove@ == base + spec_block_input_keys(txs.take(i as int)),
            base == old(utxo).to_remove@,
        decreases txs.len() - i,
    {
        proof {
            assert(txs.take(i + 1).drop_last() =~= txs.take(i as int));
            assert(txs.take(i + 1).last() == txs[i as int]);
        }
        let ghost keys_i = spec_tx_input_keys(txs[i as int]);
        let mut j: usize = 0;
        proof {
            assert(keys_i.take(0) =~= Seq::<u64>::empty());
            assert(base + spec_block_input_keys(txs.take(i as int)) + keys_i.take(0) =~= base
                + spec_block_input_keys(txs.take(i as int)));
        }
        while j < block.txs[i].inputs.len()
            invariant
                j <= txs[i as int].inputs@.len(),
                1 <= i < txs.len(),
                txs == block.txs@,
                keys_i == spec_tx_input_keys(txs[i as int]),
                utxo.active@ == old(utxo).active@,
                utxo.to_remove@ == base + spec_block_input_keys(txs.take(i as int)) + keys_i.take(
                    j as int,
                ),
                base == old(utxo).to_remove@,
            decreases txs[i as int].inputs@.len() - j,
        {
            let inp = block.txs[i].inputs[j];
            utxo.mark_for_removal(&inp.prev_txid, inp.prev_vout);
            proof {
                assert(keys_i.take(j + 1) =~= keys_i.take(j as int).push(keys_i[j as int]));
                assert(base + spec_block_input_keys(txs.take(i as int)) + keys_i.take(j + 1) =~= (
                base + spec_block_input_keys(txs.take(i as int)) + keys_i.take(j as int)).push(
                    keys_i[j as int],
                ));
            }
            j = j + 1;
        }
        proof {
            assert(keys_i.take(keys_i.len() as int) =~= keys_i);
            assert(base + spec_block_input_keys(txs.take(i + 1)) =~= base + spec_block_input_keys(
                txs.take(i as int),
            ) + keys_i);
        }
        i = i + 1;
    }
    proof {
        assert(txs.take(txs.len() as int) =~= txs);
    }
}

/// An input prefix that already fails keeps the whole list failing with the
/// same error.
proof fn lemma_input_total_err(active: Map<u64, u64>, inputs: Seq<TxInSummary>, i: int)
    requires
        0 <= i < inputs.len(),
        !active.contains_key(spec_utxo_key(inputs[i].prev_txid, inputs[i].prev_vout)),
    ensures
        spec_input_total(active, inputs) == Err::<int, UtxoError>(UtxoError::MissingInput),
    decreases inputs.len(),
{
    if inputs.len() > 0 {
        if i == inputs.len() - 1 {
        } else {
            assert(inputs.drop_last()[i] == inputs[i]);
            lemma_input_total_err(active, inputs.drop_last(), i);
        }
    }
}

} // verus!
