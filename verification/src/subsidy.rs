//! The deterministic block-subsidy schedule and block-level fee computation.

use vstd::prelude::*;
use vstd::arithmetic::div_mod::lemma_div_denominator;
use vstd::arithmetic::power2::{lemma_pow2_pos, lemma_pow2_unfold, pow2};
use crate::block::{sum_output_sats, output_value_total, TxSummary};

verus! {

/// The subsidy owed to the miner of a block at `height`, in satoshis:
/// the initial 50-coin subsidy halved once every 210,000 blocks, rounding
/// down, and zero from the 33rd halving on.
pub open spec fn spec_subsidy(height: u32) -> int {
    let halvings = height as int / 210_000;
    if halvings >= 33 {
        0
    } else {
        5_000_000_000int / pow2(halvings as nat) as int
    }
}

/// The block subsidy at `height`, in satoshis.
pub fn get_block_reward(height: u32) -> (r: u64)
    ensures
        r == spec_subsidy(height),
{
    let halvings: u32 = height / 210_000;
    if halvings >= 33 {
        return 0;
    }
    let mut reward: u64 = 5_000_000_000;
    let mut i: u32 = 0;
    proof {
        assert(pow2(0) == 1) by {
            vstd::arithmetic::power2::lemma2_to64();
        }
    }
    while i < halvings
        invariant
            i <= halvings,
            halvings < 33,
            reward == 5_000_000_000int / pow2(i as nat) as int,
        decreases halvings - i,
    {
        proof {
            lemma_pow2_pos(i as nat);
            lemma_pow2_unfold((i + 1) as nat);
            lemma_div_denominator(5_000_000_000int, pow2(i as nat) as int, 2);
        }
        reward = reward / 2;
        i = i + 1;
    }
    reward
}

/// The total fee collected by the miner of a block: the value of the coinbase
/// outputs beyond the subsidy owed at `height`, and zero when the coinbase
/// claims no more than the subsidy. An empty transaction list yields zero.
pub open spec fn spec_block_fees(txs: Seq<TxSummary>, height: u32) -> int {
    if txs.len() == 0 {
        0
    } else {
        let claimed = sum_output_sats(txs[0].outputs@);
        if claimed >= spec_subsidy(height) {
            claimed - spec_subsidy(height)
        } else {
            0
        }
    }
}

/// The fees paid to the miner of the block whose transactions are `txs`, at
/// `height`: coinbase output total minus the block subsidy, floored at zero.
pub fn calculate_block_fees(txs: &Vec<TxSummary>, height: u32) -> (r: u128)
    ensures
        r == spec_block_fees(txs@, height),
{
    if txs.len() == 0 {
        return 0;
    }
    let claimed = output_value_total(&txs[0].outputs);
    let reward = get_block_reward(height) as u128;
    if claimed >= reward {
        claimed - reward
    } else {
        0
    }
}

} // verus!
