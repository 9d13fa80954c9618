//! The column extraction engine: maps a requested metric to an extractor
//! over a decoded block, reducing multi-valued metrics to quantiles of their
//! sorted per-block distribution.
//!
//! Every value is kept as an exact non-negative rational `num / den`; the
//! caller turns it into its preferred number format only at the edge.

use vstd::prelude::*;
use vstd::multiset::Multiset;
use crate::block::{BlockSummary, sum_output_sats, TxOutSummary, TxSummary};
use crate::subsidy::{calculate_block_fees, spec_block_fees};
use crate::utxo::{transaction_fee, UtxoError, UtxoSet};

verus! {

/// Why a column could not be extracted from a block.
#[derive(Clone, Copy, PartialEq, Eq, Debug, Structural)]
pub enum ExtractError {
    /// The metric reads the unspent-output set, but the run has no tracker.
    UtxoRequired,
    /// The unspent-output set rejected a lookup or a computed fee.
    Utxo(UtxoError),
}

/// A single-valued metric: one value per block.
#[derive(Clone, Copy, PartialEq, Eq, Debug, Structural)]
pub enum SingleMetric {
    /// The block's height.
    Height,
    /// The header's miner-claimed timestamp.
    Timestamp,
    /// How many transactions the block holds.
    TxCount,
    /// Total miner fee over the block's virtual size outside the coinbase.
    FeeAvg,
    /// The serialized size cached in the block's index entry.
    BlockSize,
    /// How many outputs the unspent-output set holds.
    UtxoSize,
    /// How many data-carrier outputs the block holds.
    OpReturnCount,
    /// Total script bytes over the block's data-carrier outputs.
    OpReturnBytes,
    /// How many data-carrier outputs exceed 40 script bytes.
    OpReturnGt40,
    /// How many data-carrier outputs exceed 80 script bytes.
    OpReturnGt80,
}

/// A multi-valued metric: a per-block distribution reduced to quantiles.
#[derive(Clone, Copy, PartialEq, Eq, Debug, Structural)]
pub enum MultiMetric {
    /// Each non-coinbase transaction's virtual size.
    TxSize,
    /// Each non-coinbase transaction's fee per virtual byte.
    FeeRates,
}

/// One requested column.
#[derive(Debug, PartialEq, Eq)]
pub enum ColumnSpec {
    /// One value per block.
    Single {
        /// The requested column name.
        name: String,
        /// The metric behind it.
        metric: SingleMetric,
    },
    /// A distribution reduced to one value per requested quantile point.
    Multi {
        /// The requested base name.
        name: String,
        /// The quantile points, each in `0 ..= 100`.
        quantiles: Vec<u64>,
        /// The metric behind the distribution.
        metric: MultiMetric,
    },
}

/// An extracted value: the exact rational `num / den`.
#[derive(Clone, Copy, PartialEq, Eq, Debug, Structural)]
pub struct ColumnValue {
    /// The numerator.
    pub num: u128,
    /// The denominator; at least one.
    pub den: u128,
}

/// How many outputs of `outs` are data carriers with more than `t` script
/// bytes.
pub open spec fn spec_opret_over_outs(outs: Seq<TxOutSummary>, t: int) -> int
    decreases outs.len(),
{
    if outs.len() == 0 {
        0
    } else {
        spec_opret_over_outs(outs.drop_last(), t) + if outs.last().is_op_return
            && outs.last().script_len > t {
            1int
        } else {
            0int
        }
    }
}

/// How many outputs of a block's transactions are data carriers with more
/// than `t` script bytes.
pub open spec fn spec_opret_over(txs: Seq<TxSummary>, t: int) -> int
    decreases txs.len(),
{
    if txs.len() == 0 {
        0
    } else {
        spec_opret_over(txs.drop_last(), t) + spec_opret_over_outs(txs.last().outputs@, t)
    }
}

/// Total script bytes over the data-carrier outputs of `outs`.
pub open spec fn spec_opret_bytes_outs(outs: Seq<TxOutSummary>) -> int
    decreases outs.len(),
{
    if outs.len() == 0 {
        0
    } else {
        spec_opret_bytes_outs(outs.drop_last()) + if outs.last().is_op_return {
            outs.last().script_len as int
        } else {
            0int
        }
    }
}

/// Total script bytes over the data-carrier outputs of a block's
/// transactions.
pub open spec fn spec_opret_bytes(txs: Seq<TxSummary>) -> int
    decreases txs.len(),
{
    if txs.len() == 0 {
        0
    } else {
        spec_opret_bytes(txs.drop_last()) + spec_opret_bytes_outs(txs.last().outputs@)
    }
}

/// Total weight of the block's transactions outside the coinbase, in weight
/// units.
pub open spec fn spec_nonbase_weight(txs: Seq<TxSummary>) -> int
    decreases txs.len(),
{
    if txs.len() <= 1 {
        0
    } else {
        spec_nonbase_weight(txs.drop_last()) + txs.last().weight as int
    }
}

/// Whether the block stays inside the bounds the extraction arithmetic is
/// proved against: transaction, input and output counts each fit 32 bits.
/// A serialized block a container record can carry never exceeds them.
pub open spec fn spec_block_bounded(b: BlockSummary) -> bool {
    &&& b.txs@.len() <= 0xffff_ffff
    &&& forall|i: int|
        0 <= i < b.txs@.len() ==> #[trigger] b.txs@[i].outputs@.len() <= 0xffff_ffff
            && b.txs@[i].inputs@.len() <= 0xffff_ffff
}

/// What a single-valued metric owes on a block: the exact rational, or the
/// error owed when the metric needs the absent tracker.
pub open spec fn spec_single_value(
    metric: SingleMetric,
    b: BlockSummary,
    height: u32,
    block_size: u32,
    u: Option<Map<u64, u64>>,
) -> Result<(int, int), ExtractError> {
    match metric {
        SingleMetric::Height => Ok((height as int, 1)),
        SingleMetric::Timestamp => Ok((b.time as int, 1)),
        SingleMetric::TxCount => Ok((b.txs@.len() as int, 1)),
        SingleMetric::BlockSize => Ok((block_size as int, 1)),
        SingleMetric::OpReturnCount => Ok((spec_opret_over(b.txs@, -1), 1)),
        SingleMetric::OpReturnBytes => Ok((spec_opret_bytes(b.txs@), 1)),
        SingleMetric::OpReturnGt40 => Ok((spec_opret_over(b.txs@, 40), 1)),
        SingleMetric::OpReturnGt80 => Ok((spec_opret_over(b.txs@, 80), 1)),
        SingleMetric::UtxoSize => match u {
            Some(m) => Ok((m.len() as int, 1)),
            None => Err(ExtractError::UtxoRequired),
        },
        SingleMetric::FeeAvg => {
            let fees = spec_block_fees(b.txs@, height);
            let w = spec_nonbase_weight(b.txs@);
            if w == 0 {
                Ok((0, 1))
            } else {
                Ok((4 * fees, w))
            }
        },
    }
}

/// Counts the data-carrier outputs of a block with more than `t` script
/// bytes.
fn count_opret_over(block: &BlockSummary, t: i64) -> (r: u64)
    requires
        spec_block_bounded(*block),
    ensures
        r == spec_opret_over(block.txs@, t as int),
{
    let ghost txs = block.txs@;
    let mut count: u64 = 0;
    let mut i: usize = 0;
    proof {
        assert(txs.take(0) =~= Seq::<TxSummary>::empty());
    }
    while i < block.txs.len()
        invariant
            i <= txs.len(),
            txs == block.txs@,
            spec_block_bounded(*block),
            count == spec_opret_over(txs.take(i as int), t as int),
            count <= i * 0xffff_ffffu64,
        decreases txs.len() - i,
    {
        proof {
            assert(txs.take(i + 1).drop_last() =~= txs.take(i as int));
            assert(txs.take(i + 1).last() == txs[i as int]);
        }
        let ghost outs = txs[i as int].outputs@;
        let mut inner: u64 = 0;
        let mut j: usize = 0;
        proof {
            assert(outs.take(0) =~= Seq::<TxOutSummary>::empty());
        }
        while j < block.txs[i].outputs.len()
            invariant
                j <= outs.len(),
                i < txs.len(),
                txs == block.txs@,
                outs == txs[i as int].outputs@,
                outs.len() <= 0xffff_ffff,
                inner == spec_opret_over_outs(outs.take(j as int), t as int),
                inner <= j,
            decreases outs.len() - j,
        {
            proof {
                assert(outs.take(j + 1).drop_last() =~= outs.take(j as int));
                assert(outs.take(j + 1).last() == outs[j as int]);
            }
            let out = &block.txs[i].outputs[j];
            if out.is_op_return && (t < 0 || out.script_len > t as u64) {
                inner = inner + 1;
            }
            j = j + 1;
        }
        proof {
            assert(outs.take(outs.len() as int) =~= outs);
        }
        count = count + inner;
        i = i + 1;
    }
    proof {
        assert(txs.take(txs.len() as int) =~= txs);
    }
    count
}

/// Sums the script bytes of a block's data-carrier outputs.
fn count_opret_bytes(block: &BlockSummary) -> (r: u128)
    requires
        spec_block_bounded(*block),
    ensures
        r == spec_opret_bytes(block.txs@),
{
    let ghost txs = block.txs@;
    let mut total: u128 = 0;
    let mut i: usize = 0;
    proof {
        assert(txs.take(0) =~= Seq::<TxSummary>::empty());
    }
    while i < block.txs.len()
        invariant
            i <= txs.len(),
            txs == block.txs@,
            spec_block_bounded(*block),
            total == spec_opret_bytes(txs.take(i as int)),
            total <= i * 0xffff_ffff_0000_0000_0000_0001u128,
        decreases txs.len() - i,
    {
        proof {
            assert(txs.take(i + 1).drop_last() =~= txs.take(i as int));
            assert(txs.take(i + 1).last() == txs[i as int]);
        }
        let ghost outs = txs[i as int].outputs@;
        let mut inner: u128 = 0;
        let mut j: usize = 0;
        proof {
            assert(outs.take(0) =~= Seq::<TxOutSummary>::empty());
        }
        while j < block.txs[i].outputs.len()
            invariant
                j <= outs.len(),
                i < txs.len(),
                txs == block.txs@,
                outs == txs[i as int].outputs@,
                outs.len() <= 0xffff_ffff,
                inner == spec_opret_bytes_outs(outs.take(j as int)),
                inner <= j * 0xffff_ffff_ffff_ffffu64,
            decreases outs.len() - j,
        {
            proof {
                assert(outs.take(j + 1).drop_last() =~= outs.take(j as int));
                assert(outs.take(j + 1).last() == outs[j as int]);
            }
            let out = &block.txs[i].outputs[j];
            if out.is_op_return {
                inner = inner + out.script_len as u128;
            }
            j = j + 1;
        }
        proof {
            assert(outs.take(outs.len() as int) =~= outs);
        }
        total = total + inner;
        i = i + 1;
    }
    proof {
        assert(txs.take(txs.len() as int) =~= txs);
    }
    total
}

/// Sums the weights of a block's transactions outside the coinbase.
fn nonbase_weight_total(block: &BlockSummary) -> (r: u128)
    requires
        spec_block_bounded(*block),
    ensures
        r == spec_nonbase_weight(block.txs@),
{
    let ghost txs = block.txs@;
    let mut total: u128 = 0;
    let mut i: usize = 1;
    proof {
        assert(spec_nonbase_weight(txs.take(0)) == 0);
        if txs.len() >= 1 {
            assert(txs.take(1).len() == 1);
            assert(spec_nonbase_weight(txs.take(1)) == 0);
        }
    }
    if block.txs.len() <= 1 {
        proof {
            assert(txs.take(txs.len() as int) =~= txs);
        }
        return 0;
    }
    while i < block.txs.len()
        invariant
            1 <= i <= txs.len(),
            txs == block.txs@,
            txs.len() <= 0xffff_ffff,
            total == spec_nonbase_weight(txs.take(i as int)),
            total <= i * 0xffff_ffff_ffff_ffffu64,
        decreases txs.len() - i,
    {
        proof {
            assert(txs.take(i + 1).drop_last() =~= txs.take(i as int));
            assert(txs.take(i + 1).last() == txs[i as int]);
        }
        total = total + block.txs[i].weight as u128;
        i = i + 1;
    }
    proof {
        assert(txs.take(txs.len() as int) =~= txs);
    }
    total
}

/// Extracts one single-valued metric from a decoded block. `block_size`
/// comes from the block's index entry, which caches the record's payload
/// length.
pub fn extract_single(
    metric: SingleMetric,
    block: &BlockSummary,
    height: u32,
    block_size: u32,
    utxo: Option<&UtxoSet>,
) -> (r: Result<ColumnValue, ExtractError>)
    requires
        spec_block_bounded(*block),
    ensures
        match r {
            Ok(cv) => spec_single_value(
                metric,
                *block,
                height,
                block_size,
                match utxo {
                    Some(u) => Some(u.active@),
                    None => None,
                },
            ) == Ok::<(int, int), ExtractError>((cv.num as int, cv.den as int)) && cv.den >= 1,
            Err(e) => spec_single_value(
                metric,
                *block,
                height,
                block_size,
                match utxo {
                    Some(u) => Some(u.active@),
                    None => None,
                },
            ) == Err::<(int, int), ExtractError>(e),
        },
{
    match metric {
        SingleMetric::Height => Ok(ColumnValue { num: height as u128, den: 1 }),
        SingleMetric::Timestamp => Ok(ColumnValue { num: block.time as u128, den: 1 }),
        SingleMetric::TxCount => Ok(ColumnValue { num: block.txs.len() as u128, den: 1 }),
        SingleMetric::BlockSize => Ok(ColumnValue { num: block_size as u128, den: 1 }),
        SingleMetric::OpReturnCount => Ok(
            ColumnValue { num: count_opret_over(block, -1) as u128, den: 1 },
        ),
        SingleMetric::OpReturnBytes => Ok(ColumnValue { num: count_opret_bytes(block), den: 1 }),
        SingleMetric::OpReturnGt40 => Ok(
            ColumnValue { num: count_opret_over(block, 40) as u128, den: 1 },
        ),
        SingleMetric::OpReturnGt80 => Ok(
            ColumnValue { num: count_opret_over(block, 80) as u128, den: 1 },
        ),
        SingleMetric::UtxoSize => match utxo {
            Some(u) => Ok(ColumnValue { num: u.len() as u128, den: 1 }),
            None => Err(ExtractError::UtxoRequired),
        },
        SingleMetric::FeeAvg => {
            let fees = calculate_block_fees(&block.txs, height);
            let weight = nonbase_weight_total(block);
            proof {
                if block.txs@.len() == 0 {
                    assert(fees == 0);
                } else {
                    assert(block.txs@[0].outputs@.len() <= 0xffff_ffff);
                    crate::block::lemma_sum_output_bound(block.txs@[0].outputs@);
                    assert(sum_output_sats(block.txs@[0].outputs@) <= 0xffff_ffffint
                        * 0xffff_ffff_ffff_ffff);
                    assert(crate::subsidy::spec_subsidy(height) >= 0) by {
                        vstd::arithmetic::power2::lemma_pow2_pos(
                            (height as int / 210_000) as nat,
                        );
                        vstd::arithmetic::div_mod::lemma_div_pos_is_pos(
                            5_000_000_000int,
                            vstd::arithmetic::power2::pow2(
                                (height as int / 210_000) as nat,
                            ) as int,
                        );
                    }
                    assert(fees <= sum_output_sats(block.txs@[0].outputs@));
                }
                assert(fees <= 0xffff_ffffu128 * 0xffff_ffff_ffff_ffffu128);
            }
            if weight == 0 {
                Ok(ColumnValue { num: 0, den: 1 })
            } else {
                Ok(ColumnValue { num: 4 * fees, den: weight })
            }
        },
    }
}

/// Each non-coinbase transaction's weight in weight units, in wire order; a
/// virtual byte is four weight units, so these values carry a denominator
/// of four.
pub open spec fn spec_tx_size_values(txs: Seq<TxSummary>) -> Seq<u128> {
    if txs.len() <= 1 {
        Seq::empty()
    } else {
        Seq::new((txs.len() - 1) as nat, |j: int| txs[j + 1].weight as u128)
    }
}

/// Each non-coinbase transaction's fee rate in hundredths of a satoshi per
/// virtual byte, rounding down, in wire order; transactions of zero weight
/// contribute nothing, and any fee error aborts the whole distribution.
pub open spec fn spec_fee_rate_values(active: Map<u64, u64>, txs: Seq<TxSummary>) -> Result<
    Seq<u128>,
    ExtractError,
>
    decreases txs.len(),
{
    if txs.len() <= 1 {
        Ok(Seq::empty())
    } else {
        match spec_fee_rate_values(active, txs.drop_last()) {
            Err(e) => Err(e),
            Ok(rest) => match crate::utxo::spec_tx_fee(active, txs.last()) {
                Err(ue) => Err(ExtractError::Utxo(ue)),
                Ok(fee) => if txs.last().weight == 0 {
                    Ok(rest)
                } else {
                    Ok(rest.push((fee * 400 / (txs.last().weight as int)) as u128))
                },
            },
        }
    }
}

/// The per-value denominator of a multi-valued metric's raw values.
pub open spec fn spec_multi_den(m: MultiMetric) -> int {
    match m {
        MultiMetric::TxSize => 4,
        MultiMetric::FeeRates => 100,
    }
}

/// What a multi-valued metric owes on a block: its raw per-transaction
/// values before sorting, or the error owed.
pub open spec fn spec_multi_values(
    m: MultiMetric,
    b: BlockSummary,
    u: Option<Map<u64, u64>>,
) -> Result<Seq<u128>, ExtractError> {
    match m {
        MultiMetric::TxSize => Ok(spec_tx_size_values(b.txs@)),
        MultiMetric::FeeRates => match u {
            None => Err(ExtractError::UtxoRequired),
            Some(a) => spec_fee_rate_values(a, b.txs@),
        },
    }
}

/// An erring prefix of transactions keeps every longer prefix of the fee
/// distribution erring the same way.
proof fn lemma_fee_rates_prefix_err(active: Map<u64, u64>, txs: Seq<TxSummary>, k: int)
    requires
        0 <= k <= txs.len(),
        spec_fee_rate_values(active, txs.take(k)) is Err,
    ensures
        spec_fee_rate_values(active, txs) == spec_fee_rate_values(active, txs.take(k)),
    decreases txs.len(),
{
    if k < txs.len() {
        assert(txs.drop_last().take(k) =~= txs.take(k));
        lemma_fee_rates_prefix_err(active, txs.drop_last(), k);
        assert(txs.take(txs.len() as int) =~= txs);
    } else {
        assert(txs.take(k) =~= txs);
    }
}

/// Collects each non-coinbase transaction's weight.
fn tx_size_values(block: &BlockSummary) -> (r: Vec<u128>)
    ensures
        r@ == spec_tx_size_values(block.txs@),
        forall|i: int|
            0 <= i < r@.len() ==> #[trigger] r@[i] <= 0x1_0000_0000_0000_0000_0000_0000_0000,
{
    let ghost txs = block.txs@;
    let mut out: Vec<u128> = Vec::new();
    if block.txs.len() <= 1 {
        proof {
            assert(out@ =~= spec_tx_size_values(txs));
        }
        return out;
    }
    let mut i: usize = 1;
    while i < block.txs.len()
        invariant
            1 <= i <= txs.len(),
            txs == block.txs@,
            txs.len() > 1,
            out@ =~= spec_tx_size_values(txs.take(i as int)),
            forall|k: int|
                0 <= k < out@.len() ==> #[trigger] out@[k]
                    <= 0x1_0000_0000_0000_0000_0000_0000_0000,
        decreases txs.len() - i,
    {
        out.push(block.txs[i].weight as u128);
        proof {
            assert(out@ =~= spec_tx_size_values(txs.take(i + 1)));
        }
        i = i + 1;
    }
    proof {
        assert(txs.take(txs.len() as int) =~= txs);
    }
    out
}

/// Collects each non-coinbase transaction's fee rate in hundredths of a
/// satoshi per virtual byte.
#[verifier::rlimit(100)]
#[verifier::spinoff_prover]
fn fee_rate_values(block: &BlockSummary, u: &UtxoSet) -> (r: Result<Vec<u128>, ExtractError>)
    ensures
        match r {
            Ok(v) => spec_fee_rate_values(u.active@, block.txs@) == Ok::<Seq<u128>, ExtractError>(
                v@,
            ) && (forall|i: int|
                0 <= i < v@.len() ==> #[trigger] v@[i]
                    <= 0x1_0000_0000_0000_0000_0000_0000_0000),
            Err(e) => spec_fee_rate_values(u.active@, block.txs@) == Err::<
                Seq<u128>,
                ExtractError,
            >(e),
        },
{
    let ghost txs = block.txs@;
    let mut out: Vec<u128> = Vec::new();
    if block.txs.len() <= 1 {
        return Ok(out);
    }
    let mut i: usize = 1;
    proof {
        assert(spec_fee_rate_values(u.active@, txs.take(1)) == Ok::<Seq<u128>, ExtractError>(
            Seq::empty(),
        ));
        assert(out@ =~= Seq::<u128>::empty());
    }
    while i < block.txs.len()
        invariant
            1 <= i <= txs.len(),
            txs == block.txs@,
            spec_fee_rate_values(u.active@, txs.take(i as int)) == Ok::<Seq<u128>, ExtractError>(
                out@,
            ),
            forall|k: int|
                0 <= k < out@.len() ==> #[trigger] out@[k]
                    <= 0x1_0000_0000_0000_0000_0000_0000_0000,
        decreases txs.len() - i,
    {
        proof {
            assert(txs.take(i + 1).drop_last() =~= txs.take(i as int));
            assert(txs.take(i + 1).last() == txs[i as int]);
        }
        let fee = match transaction_fee(&block.txs[i], u) {
            Ok(f) => f,
            Err(e) => {
                proof {
                    assert(crate::utxo::spec_tx_fee(u.active@, txs[i as int]) == Err::<
                        int,
                        UtxoError,
                    >(e));
                    assert(spec_fee_rate_values(u.active@, txs.take(i + 1)) == Err::<
                        Seq<u128>,
                        ExtractError,
                    >(ExtractError::Utxo(e)));
                    lemma_fee_rates_prefix_err(u.active@, txs, i + 1);
                }
                return Err(ExtractError::Utxo(e));
            },
        };
        let weight = block.txs[i].weight;
        if weight != 0 {
            let rate: u128 = fee as u128 * 400 / weight as u128;
            proof {
                let x: int = fee as int * 400;
                let w: int = weight as int;
                assert(x / w <= x) by (nonlinear_arith)
                    requires
                        x >= 0,
                        w >= 1,
                ;
                assert(rate == x / w);
            }
            out.push(rate);
        }
        i = i + 1;
    }
    proof {
        assert(txs.take(txs.len() as int) =~= txs);
    }
    Ok(out)
}

/// Extracts one multi-valued metric's raw distribution from a decoded
/// block, unsorted.
pub fn extract_multi(metric: MultiMetric, block: &BlockSummary, utxo: Option<&UtxoSet>) -> (r:
    Result<Vec<u128>, ExtractError>)
    requires
        spec_block_bounded(*block),
    ensures
        match r {
            Ok(v) => spec_multi_values(
                metric,
                *block,
                match utxo {
                    Some(u) => Some(u.active@),
                    None => None,
                },
            ) == Ok::<Seq<u128>, ExtractError>(v@) && (forall|i: int|
                0 <= i < v@.len() ==> #[trigger] v@[i]
                    <= 0x1_0000_0000_0000_0000_0000_0000_0000),
            Err(e) => spec_multi_values(
                metric,
                *block,
                match utxo {
                    Some(u) => Some(u.active@),
                    None => None,
                },
            ) == Err::<Seq<u128>, ExtractError>(e),
        },
{
    match metric {
        MultiMetric::TxSize => Ok(tx_size_values(block)),
        MultiMetric::FeeRates => match utxo {
            Some(u) => fee_rate_values(block, u),
            None => Err(ExtractError::UtxoRequired),
        },
    }
}

/// What a whole row owes: each single column's value, and for each
/// multi-valued column one value per quantile point — the quantile of the
/// sorted distribution over a denominator carrying both the metric's own
/// scale and the quantile's hundredths.
pub open spec fn spec_row(
    specs: Seq<ColumnSpec>,
    b: BlockSummary,
    height: u32,
    block_size: u32,
    u: Option<Map<u64, u64>>,
) -> Result<Seq<(int, int)>, ExtractError>
    decreases specs.len(),
{
    if specs.len() == 0 {
        Ok(Seq::empty())
    } else {
        match spec_row(specs.drop_last(), b, height, block_size, u) {
            Err(e) => Err(e),
            Ok(rest) => match specs.last() {
                ColumnSpec::Single { metric, .. } => match spec_single_value(
                    metric,
                    b,
                    height,
                    block_size,
                    u,
                ) {
                    Err(e) => Err(e),
                    Ok(v) => Ok(rest.push(v)),
                },
                ColumnSpec::Multi { metric, quantiles, .. } => match spec_multi_values(
                    metric,
                    b,
                    u,
                ) {
                    Err(e) => Err(e),
                    Ok(vals) => Ok(
                        rest + Seq::new(
                            quantiles@.len(),
                            |j: int|
                                (
                                    spec_quantile_value(
                                        spec_sort(vals),
                                        quantiles@[j] as int,
                                    ),
                                    100 * spec_multi_den(metric),
                                ),
                        ),
                    ),
                },
            },
        }
    }
}

/// Whether every requested quantile point of every column sits in
/// `0 ..= 100`.
pub open spec fn spec_specs_wf(specs: Seq<ColumnSpec>) -> bool {
    forall|i: int|
        0 <= i < specs.len() ==> match #[trigger] specs[i] {
            ColumnSpec::Multi { quantiles, .. } => forall|j: int|
                0 <= j < quantiles@.len() ==> #[trigger] quantiles@[j] <= 100,
            ColumnSpec::Single { .. } => true,
        }
}

/// Computes one export row: every requested column's value for one decoded
/// block, single metrics directly and multi-valued metrics reduced to their
/// quantile points. Any extraction error aborts the whole row; there is no
/// partial row.
#[verifier::rlimit(100)]
#[verifier::spinoff_prover]
pub fn compute_row(
    specs: &Vec<ColumnSpec>,
    block: &BlockSummary,
    height: u32,
    block_size: u32,
    utxo: Option<&UtxoSet>,
) -> (r: Result<Vec<ColumnValue>, ExtractError>)
    requires
        spec_block_bounded(*block),
        spec_specs_wf(specs@),
    ensures
        match r {
            Ok(row) => spec_row(
                specs@,
                *block,
                height,
                block_size,
                match utxo {
                    Some(u) => Some(u.active@),
                    None => None,
                },
            ) == Ok::<Seq<(int, int)>, ExtractError>(
                row@.map_values(|cv: ColumnValue| (cv.num as int, cv.den as int)),
            ) && (forall|i: int| 0 <= i < row@.len() ==> (#[trigger] row@[i]).den >= 1),
            Err(e) => spec_row(
                specs@,
                *block,
                height,
                block_size,
                match utxo {
                    Some(u) => Some(u.active@),
                    None => None,
                },
            ) == Err::<Seq<(int, int)>, ExtractError>(e),
        },
{
    let ghost uview: Option<Map<u64, u64>> = match utxo {
        Some(u) => Some(u.active@),
        None => None,
    };
    let mut out: Vec<ColumnValue> = Vec::new();
    let mut i: usize = 0;
    proof {
        assert(specs@.take(0) =~= Seq::<ColumnSpec>::empty());
        assert(out@.map_values(|cv: ColumnValue| (cv.num as int, cv.den as int)) =~= Seq::<
            (int, int),
        >::empty());
    }
    while i < specs.len()
        invariant
            i <= specs@.len(),
            spec_block_bounded(*block),
            spec_specs_wf(specs@),
            uview == (match utxo {
                Some(u) => Some(u.active@),
                None => None::<Map<u64, u64>>,
            }),
            spec_row(specs@.take(i as int), *block, height, block_size, uview) == Ok::<
                Seq<(int, int)>,
                ExtractError,
            >(out@.map_values(|cv: ColumnValue| (cv.num as int, cv.den as int))),
            forall|k: int| 0 <= k < out@.len() ==> (#[trigger] out@[k]).den >= 1,
        decreases specs@.len() - i,
    {
        proof {
            assert(specs@.take(i + 1).drop_last() =~= specs@.take(i as int));
            assert(specs@.take(i + 1).last() == specs@[i as int]);
        }
        let ghost out_pre = out@;
        match &specs[i] {
            ColumnSpec::Single { metric, .. } => {
                let m = *metric;
                match extract_single(m, block, height, block_size, utxo) {
                    Ok(cv) => {
                        out.push(cv);
                        proof {
                            assert(out@.map_values(
                                |cv: ColumnValue| (cv.num as int, cv.den as int),
                            ) =~= out_pre.map_values(
                                |cv: ColumnValue| (cv.num as int, cv.den as int),
                            ).push((out@.last().num as int, out@.last().den as int)));
                        }
                    },
                    Err(e) => {
                        proof {
                            lemma_row_prefix_err(
                                specs@,
                                *block,
                                height,
                                block_size,
                                uview,
                                i + 1,
                            );
                        }
                        return Err(e);
                    },
                }
            },
            ColumnSpec::Multi { metric, quantiles, .. } => {
                let m = *metric;
                let values = match extract_multi(m, block, utxo) {
                    Ok(v) => v,
                    Err(e) => {
                        proof {
                            lemma_row_prefix_err(
                                specs@,
                                *block,
                                height,
                                block_size,
                                uview,
                                i + 1,
                            );
                        }
                        return Err(e);
                    },
                };
                let sorted = sort_values(&values);
                proof {
                    assert forall|k: int| 0 <= k < sorted@.len() implies #[trigger] sorted@[k]
                        <= 0x1_0000_0000_0000_0000_0000_0000_0000 by {
                        broadcast use vstd::seq_lib::group_to_multiset_ensures;

                        assert(sorted@.to_multiset().contains(sorted@[k]));
                        assert(values@.contains(sorted@[k]));
                    }
                }
                let qvals = calculate_quantiles(&sorted, quantiles);
                let den: u128 = match m {
                    MultiMetric::TxSize => 400,
                    MultiMetric::FeeRates => 10000,
                };
                let ghost expected = Seq::new(
                    quantiles@.len(),
                    |j: int|
                        (
                            spec_quantile_value(spec_sort(values@), quantiles@[j] as int),
                            100 * spec_multi_den(m),
                        ),
                );
                let mut j: usize = 0;
                while j < qvals.len()
                    invariant
                        j <= qvals@.len(),
                        qvals@.len() == quantiles@.len(),
                        den == 100 * spec_multi_den(m),
                        expected == Seq::new(
                            quantiles@.len(),
                            |jj: int|
                                (
                                    spec_quantile_value(spec_sort(values@), quantiles@[jj] as int),
                                    100 * spec_multi_den(m),
                                ),
                        ),
                        forall|k: int|
                            0 <= k < qvals@.len() ==> #[trigger] qvals@[k] == spec_quantile_value(
                                spec_sort(values@),
                                quantiles@[k] as int,
                            ),
                        out@.map_values(|cv: ColumnValue| (cv.num as int, cv.den as int))
                            =~= out_pre.map_values(
                            |cv: ColumnValue| (cv.num as int, cv.den as int),
                        ) + expected.take(j as int),
                        forall|k: int| 0 <= k < out@.len() ==> (#[trigger] out@[k]).den >= 1,
                    decreases qvals@.len() - j,
                {
                    let ghost before = out@;
                    out.push(ColumnValue { num: qvals[j], den });
                    proof {
                        assert(out@.map_values(|cv: ColumnValue| (cv.num as int, cv.den as int))
                            =~= before.map_values(
                            |cv: ColumnValue| (cv.num as int, cv.den as int),
                        ).push((out@.last().num as int, out@.last().den as int)));
                        assert(expected.take(j + 1) =~= expected.take(j as int).push(
                            expected[j as int],
                        ));
                    }
                    j = j + 1;
                }
                proof {
                    assert(expected.take(expected.len() as int) =~= expected);
                }
            },
        }
        i = i + 1;
    }
    proof {
        assert(specs@.take(specs@.len() as int) =~= specs@);
    }
    Ok(out)
}

/// An erring prefix of columns keeps every longer prefix erring the same
/// way.
proof fn lemma_row_prefix_err(
    specs: Seq<ColumnSpec>,
    b: BlockSummary,
    height: u32,
    block_size: u32,
    u: Option<Map<u64, u64>>,
    k: int,
)
    requires
        0 <= k <= specs.len(),
        spec_row(specs.take(k), b, height, block_size, u) is Err,
    ensures
        spec_row(specs, b, height, block_size, u) == spec_row(
            specs.take(k),
            b,
            height,
            block_size,
            u,
        ),
    decreases specs.len(),
{
    if k < specs.len() {
        assert(specs.drop_last().take(k) =~= specs.take(k));
        lemma_row_prefix_err(specs.drop_last(), b, height, block_size, u, k);
        assert(specs.take(specs.len() as int) =~= specs);
    } else {
        assert(specs.take(k) =~= specs);
    }
}

/// Whether `s` is sorted ascending.
pub open spec fn spec_sorted_seq(s: Seq<u128>) -> bool {
    forall|i: int, j: int| 0 <= i < j < s.len() ==> s[i] <= s[j]
}

/// `x` inserted before the first element greater than it.
pub open spec fn spec_insert_sorted(s: Seq<u128>, x: u128) -> Seq<u128>
    decreases s.len(),
{
    if s.len() == 0 {
        seq![x]
    } else if s[0] <= x {
        seq![s[0]] + spec_insert_sorted(s.drop_first(), x)
    } else {
        seq![x] + s
    }
}

/// `s` sorted ascending by repeated insertion.
pub open spec fn spec_sort(s: Seq<u128>) -> Seq<u128>
    decreases s.len(),
{
    if s.len() == 0 {
        Seq::empty()
    } else {
        spec_insert_sorted(spec_sort(s.drop_last()), s.last())
    }
}

/// Sorted insertion keeps a sequence sorted and adds exactly the new
/// element.
proof fn lemma_insert_sorted_props(s: Seq<u128>, x: u128)
    requires
        spec_sorted_seq(s),
    ensures
        spec_sorted_seq(spec_insert_sorted(s, x)),
        spec_insert_sorted(s, x).to_multiset() == s.to_multiset().insert(x),
        spec_insert_sorted(s, x).len() == s.len() + 1,
    decreases s.len(),
{
    broadcast use vstd::seq_lib::group_to_multiset_ensures;

    if s.len() == 0 {
        assert(seq![x].to_multiset() =~= Seq::<u128>::empty().push(x).to_multiset());
        assert(Seq::<u128>::empty().push(x) =~= seq![x]);
        assert(s.to_multiset().insert(x) =~= seq![x].to_multiset()) by {
            assert(Seq::<u128>::empty().to_multiset() =~= Multiset::<u128>::empty());
        }
    } else if s[0] <= x {
        assert(spec_sorted_seq(s.drop_first()));
        lemma_insert_sorted_props(s.drop_first(), x);
        let t = spec_insert_sorted(s.drop_first(), x);
        let r = seq![s[0]] + t;
        assert forall|a: int, b: int| 0 <= a < b < r.len() implies r[a] <= r[b] by {
            if a == 0 {
                // Every element of `t` is an element of `s.drop_first()` or
                // is `x`, and `s[0]` is below them all.
                assert(t.to_multiset().contains(t[b - 1]));
                if t[b - 1] != x {
                    assert(s.drop_first().to_multiset().contains(t[b - 1]));
                    assert(s.drop_first().contains(t[b - 1]));
                    let w = choose|w: int|
                        0 <= w < s.drop_first().len() && s.drop_first()[w] == t[b - 1];
                    assert(s[w + 1] == t[b - 1]);
                }
            } else {
                assert(r[a] == t[a - 1] && r[b] == t[b - 1]);
            }
        }
        assert(r.to_multiset() == s.to_multiset().insert(x)) by {
            assert(r =~= t.insert(0, s[0]));
            assert(r.to_multiset() == t.to_multiset().insert(s[0]));
            assert(s =~= s.drop_first().insert(0, s[0]));
            assert(s.to_multiset() == s.drop_first().to_multiset().insert(s[0]));
            assert(t.to_multiset().insert(s[0]) =~= s.drop_first().to_multiset().insert(
                x,
            ).insert(s[0]));
            assert(s.drop_first().to_multiset().insert(x).insert(s[0])
                =~= s.drop_first().to_multiset().insert(s[0]).insert(x));
        }
    } else {
        let r = seq![x] + s;
        assert forall|a: int, b: int| 0 <= a < b < r.len() implies r[a] <= r[b] by {
            if a == 0 {
                assert(r[b] == s[b - 1]);
                assert(s[0] <= s[b - 1]);
            }
        }
        assert(r =~= s.insert(0, x));
        assert(r.to_multiset() == s.to_multiset().insert(x));
    }
}

/// A sorted sequence is exactly a sorted permutation of its source.
pub proof fn lemma_sort_props(s: Seq<u128>)
    ensures
        spec_sorted_seq(spec_sort(s)),
        spec_sort(s).to_multiset() == s.to_multiset(),
        spec_sort(s).len() == s.len(),
    decreases s.len(),
{
    broadcast use vstd::seq_lib::group_to_multiset_ensures;

    if s.len() == 0 {
    } else {
        lemma_sort_props(s.drop_last());
        lemma_insert_sorted_props(spec_sort(s.drop_last()), s.last());
        assert(s =~= s.drop_last().push(s.last()));
        assert(s.to_multiset() == s.drop_last().to_multiset().insert(s.last()));
    }
}

/// Inserting at the position the exec search finds is sorted insertion.
proof fn lemma_insert_at_pos(s: Seq<u128>, x: u128, p: int)
    requires
        spec_sorted_seq(s),
        0 <= p <= s.len(),
        forall|k: int| 0 <= k < p ==> s[k] <= x,
        p < s.len() ==> s[p] > x,
    ensures
        s.insert(p, x) =~= spec_insert_sorted(s, x),
    decreases p,
{
    if s.len() == 0 {
        assert(s.insert(0, x) =~= seq![x]);
    } else if p == 0 {
        if s[0] <= x {
            assert(false);
        }
        assert(s.insert(0, x) =~= seq![x] + s);
    } else {
        assert(s[0] <= x);
        assert(spec_sorted_seq(s.drop_first()));
        lemma_insert_at_pos(s.drop_first(), x, p - 1);
        assert(s.insert(p, x) =~= seq![s[0]] + s.drop_first().insert(p - 1, x));
    }
}

/// Sorts the values of a distribution ascending.
pub fn sort_values(v: &Vec<u128>) -> (r: Vec<u128>)
    ensures
        r@ == spec_sort(v@),
        spec_sorted_seq(r@),
        r@.to_multiset() == v@.to_multiset(),
{
    let mut out: Vec<u128> = Vec::new();
    let mut i: usize = 0;
    proof {
        assert(v@.take(0) =~= Seq::<u128>::empty());
        assert(spec_sort(v@.take(0)) =~= Seq::<u128>::empty());
    }
    while i < v.len()
        invariant
            i <= v@.len(),
            out@ == spec_sort(v@.take(i as int)),
        decreases v@.len() - i,
    {
        let x = v[i];
        proof {
            lemma_sort_props(v@.take(i as int));
        }
        let mut p: usize = 0;
        while p < out.len() && out[p] <= x
            invariant
                p <= out@.len(),
                forall|k: int| 0 <= k < p ==> out@[k] <= x,
                out@ == spec_sort(v@.take(i as int)),
                spec_sorted_seq(out@),
            decreases out@.len() - p,
        {
            p = p + 1;
        }
        proof {
            lemma_insert_at_pos(out@, x, p as int);
            assert(v@.take(i + 1).drop_last() =~= v@.take(i as int));
            assert(v@.take(i + 1).last() == v@[i as int]);
        }
        out.insert(p, x);
        i = i + 1;
    }
    proof {
        assert(v@.take(v@.len() as int) =~= v@);
        lemma_sort_props(v@);
    }
    out
}

/// The quantile-`q` value of a sorted distribution, in hundredths: the
/// position `q / 100 × (n − 1)` names an element exactly when it is whole,
/// and otherwise the linear blend of its two bracketing neighbours. An
/// empty distribution yields zero.
pub open spec fn spec_quantile_value(data: Seq<u128>, q: int) -> int {
    if data.len() == 0 {
        0
    } else {
        let pos = q * (data.len() - 1);
        let lower = pos / 100;
        let rem = pos % 100;
        if rem == 0 {
            data[lower] * 100
        } else {
            data[lower] * (100 - rem) + data[lower + 1] * rem
        }
    }
}

/// Reduces a sorted distribution to the requested quantile points, each in
/// hundredths of the data's unit.
pub fn calculate_quantiles(sorted_data: &Vec<u128>, quantiles: &Vec<u64>) -> (r: Vec<u128>)
    requires
        forall|i: int| 0 <= i < quantiles@.len() ==> #[trigger] quantiles@[i] <= 100,
        forall|i: int|
            0 <= i < sorted_data@.len() ==> #[trigger] sorted_data@[i]
                <= 0x1_0000_0000_0000_0000_0000_0000_0000,
    ensures
        r@.len() == quantiles@.len(),
        forall|i: int|
            0 <= i < quantiles@.len() ==> #[trigger] r@[i] == spec_quantile_value(
                sorted_data@,
                quantiles@[i] as int,
            ),
{
    let n = sorted_data.len();
    let mut out: Vec<u128> = Vec::new();
    let mut i: usize = 0;
    while i < quantiles.len()
        invariant
            i <= quantiles@.len(),
            n == sorted_data@.len(),
            forall|k: int| 0 <= k < quantiles@.len() ==> #[trigger] quantiles@[k] <= 100,
            forall|k: int|
                0 <= k < sorted_data@.len() ==> #[trigger] sorted_data@[k]
                    <= 0x1_0000_0000_0000_0000_0000_0000_0000,
            out@.len() == i,
            forall|k: int|
                0 <= k < i ==> #[trigger] out@[k] == spec_quantile_value(
                    sorted_data@,
                    quantiles@[k] as int,
                ),
        decreases quantiles@.len() - i,
    {
        let q = quantiles[i];
        if n == 0 {
            out.push(0);
        } else {
            proof {
                assert((q as u128) * ((n - 1) as u128) <= 100 * ((n - 1) as u128))
                    by (nonlinear_arith)
                    requires
                        q <= 100,
                        n >= 1,
                ;
            }
            let pos: u128 = q as u128 * (n - 1) as u128;
            let lower = (pos / 100) as usize;
            let rem = pos % 100;
            proof {
                assert(pos / 100 <= (n - 1)) by {
                    assert(pos <= 100 * (n - 1));
                    assert(pos / 100 <= (100 * (n - 1)) / 100);
                    assert((100 * (n - 1)) as u128 / 100 == (n - 1)) by (nonlinear_arith)
                        requires
                            n >= 1,
                    ;
                }
                if pos % 100 != 0 {
                    assert(pos / 100 < (n - 1)) by {
                        if pos / 100 == (n - 1) as u128 {
                            assert(pos >= 100 * (n - 1)) by (nonlinear_arith)
                                requires
                                    pos / 100 == (n - 1) as u128,
                                    pos % 100 != 0,
                            ;
                        }
                    }
                }
            }
            if rem == 0 {
                let v = sorted_data[lower];
                proof {
                    assert(v * 100 <= 0x1_0000_0000_0000_0000_0000_0000_0000u128 * 100);
                }
                out.push(v * 100);
            } else {
                let lo = sorted_data[lower];
                let hi = sorted_data[lower + 1];
                proof {
                    assert(lo * (100 - rem) + hi * rem <= 0x1_0000_0000_0000_0000_0000_0000_0000u128
                        * 100) by (nonlinear_arith)
                        requires
                            lo <= 0x1_0000_0000_0000_0000_0000_0000_0000u128,
                            hi <= 0x1_0000_0000_0000_0000_0000_0000_0000u128,
                            0 < rem < 100,
                    ;
                }
                out.push(lo * (100 - rem as u128) + hi * rem as u128);
            }
        }
        i = i + 1;
    }
    out
}

} // verus!
