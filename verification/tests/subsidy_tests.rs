use chainscan::block::{TxOutSummary, TxSummary};
use chainscan::hash::Hash256;
use chainscan::subsidy::{calculate_block_fees, get_block_reward};

fn coinbase_with(values: &[u64]) -> TxSummary {
    TxSummary {
        txid: Hash256 { w0: 1, w1: 0, w2: 0, w3: 0 },
        weight: 400,
        inputs: Vec::new(),
        outputs: values
            .iter()
            .map(|v| TxOutSummary { value_sats: *v, is_op_return: false, script_len: 25 })
            .collect(),
    }
}

#[test]
fn subsidy_at_genesis() {
    assert_eq!(get_block_reward(0), 5_000_000_000);
}

#[test]
fn subsidy_after_first_halving() {
    assert_eq!(get_block_reward(210_000), 2_500_000_000);
    assert_eq!(get_block_reward(209_999), 5_000_000_000);
    assert_eq!(get_block_reward(420_000), 1_250_000_000);
}

#[test]
fn subsidy_exhausts_at_thirty_third_halving() {
    assert_eq!(get_block_reward(210_000 * 33), 0);
    assert_eq!(get_block_reward(210_000 * 33 + 1), 0);
    assert_eq!(get_block_reward(u32::MAX), 0);
}

#[test]
fn fees_are_coinbase_value_beyond_subsidy() {
    let txs = vec![coinbase_with(&[5_000_000_000, 12_345])];
    assert_eq!(calculate_block_fees(&txs, 0), 12_345);
}

#[test]
fn fees_floor_at_zero() {
    let txs = vec![coinbase_with(&[4_000_000_000])];
    assert_eq!(calculate_block_fees(&txs, 0), 0);
}

#[test]
fn fees_of_empty_block_are_zero() {
    let txs: Vec<TxSummary> = Vec::new();
    assert_eq!(calculate_block_fees(&txs, 0), 0);
}

#[test]
fn fees_use_height_subsidy() {
    let txs = vec![coinbase_with(&[2_500_000_000, 777])];
    assert_eq!(calculate_block_fees(&txs, 210_000), 777);
}

#[test]
fn subsidy_just_before_exhaustion() {
    // After 32 halvings a single satoshi remains.
    assert_eq!(get_block_reward(210_000 * 32), 1);
}
