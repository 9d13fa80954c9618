//! Plain-value models of decoded block headers, transactions and blocks.
//!
//! A decoded block is held as the exact integer facts the rest of the crate
//! reads: output values, predecessor links, transaction weights, script
//! classifications. Decoding the serialized wire format into these models is
//! the container codec's concern.

use vstd::prelude::*;
use crate::hash::Hash256;

verus! {

/// The fields of a decoded 80-byte block header that the chain resolver reads.
#[derive(Clone, Copy, PartialEq, Eq, Debug, Structural)]
pub struct HeaderInfo {
    /// The header's own content hash.
    pub hash: Hash256,
    /// The content hash of the predecessor block; all zero for the genesis
    /// block.
    pub prev_hash: Hash256,
    /// The miner-claimed timestamp.
    pub time: u32,
}

/// One transaction output: its value and what its locking script shows.
#[derive(Clone, Copy, PartialEq, Eq, Debug, Structural)]
pub struct TxOutSummary {
    /// The output's value in satoshis.
    pub value_sats: u64,
    /// Whether the locking script is a data-carrier script, making the output
    /// provably unspendable.
    pub is_op_return: bool,
    /// The locking script's length in bytes.
    pub script_len: u64,
}

/// One transaction input: the output it spends.
#[derive(Clone, Copy, PartialEq, Eq, Debug, Structural)]
pub struct TxInSummary {
    /// The transaction that created the spent output.
    pub prev_txid: Hash256,
    /// The index of the spent output in that transaction.
    pub prev_vout: u32,
}

/// One decoded transaction.
#[derive(PartialEq, Eq, Debug)]
pub struct TxSummary {
    /// The transaction's content hash.
    pub txid: Hash256,
    /// The transaction's weight in weight units; a virtual byte is four
    /// weight units.
    pub weight: u64,
    /// The outputs spent by this transaction; empty for a coinbase
    /// transaction.
    pub inputs: Vec<TxInSummary>,
    /// The outputs this transaction creates.
    pub outputs: Vec<TxOutSummary>,
}

/// One decoded block: its header timestamp and its transactions, coinbase
/// first.
#[derive(PartialEq, Eq, Debug)]
pub struct BlockSummary {
    /// The miner-claimed timestamp from the block header.
    pub time: u32,
    /// The block's transactions in wire order.
    pub txs: Vec<TxSummary>,
}

/// The sum of the values of `outs`, in satoshis.
pub open spec fn sum_output_sats(outs: Seq<TxOutSummary>) -> int
    decreases outs.len(),
{
    if outs.len() == 0 {
        0
    } else {
        sum_output_sats(outs.drop_last()) + outs.last().value_sats
    }
}

/// Sums the values of `outs`. The result cannot overflow: a `u128` holds the
/// sum of any vector of 64-bit values.
pub fn output_value_total(outs: &Vec<TxOutSummary>) -> (r: u128)
    ensures
        r == sum_output_sats(outs@),
{
    let mut total: u128 = 0;
    let mut i: usize = 0;
    while i < outs.len()
        invariant
            i <= outs.len(),
            total == sum_output_sats(outs@.take(i as int)),
            total <= i * 0xffff_ffff_ffff_ffffu64,
        decreases outs.len() - i,
    {
        proof {
            assert(outs@.take((i + 1) as int).drop_last() =~= outs@.take(i as int));
            assert(outs@.take((i + 1) as int).last() == outs@[i as int]);
        }
        total = total + outs[i].value_sats as u128;
        i = i + 1;
    }
    proof {
        assert(outs@.take(outs@.len() as int) =~= outs@);
    }
    total
}

/// An output sum is non-negative and never exceeds one maximal value per
/// output.
pub proof fn lemma_sum_output_bound(outs: Seq<TxOutSummary>)
    ensures
        0 <= sum_output_sats(outs) <= outs.len() * 0xffff_ffff_ffff_ffff,
    decreases outs.len(),
{
    if outs.len() > 0 {
        lemma_sum_output_bound(outs.drop_last());
    }
}

} // verus!
