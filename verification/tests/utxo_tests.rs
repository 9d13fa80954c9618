use chainscan::block::{BlockSummary, TxInSummary, TxOutSummary, TxSummary};
use chainscan::hash::Hash256;
use chainscan::utxo::{
    apply_block_outputs, mark_block_inputs, transaction_fee, utxo_key, UtxoError, UtxoSet,
};

fn txid(n: u64) -> Hash256 {
    Hash256 { w0: n, w1: n ^ 0xff, w2: 3, w3: 4 }
}

#[test]
fn insert_then_read_back() {
    let mut set = UtxoSet::new();
    let t = txid(1);
    set.add_output(&t, 0, 500, 10).unwrap();
    assert_eq!(set.get_value(&t, 0), Some(500));
    assert_eq!(set.len(), 1);
}

#[test]
fn removal_is_deferred_until_commit() {
    let mut set = UtxoSet::new();
    let t = txid(1);
    set.add_output(&t, 0, 500, 10).unwrap();
    set.mark_for_removal(&t, 0);
    assert_eq!(set.get_value(&t, 0), Some(500));
    set.commit_removals();
    assert_eq!(set.get_value(&t, 0), None);
    assert_eq!(set.len(), 0);
}

#[test]
fn duplicate_key_is_a_collision_at_ordinary_heights() {
    let mut set = UtxoSet::new();
    let t = txid(1);
    set.add_output(&t, 0, 500, 10).unwrap();
    assert_eq!(set.add_output(&t, 0, 600, 11), Err(UtxoError::KeyCollision));
    assert_eq!(set.get_value(&t, 0), Some(500));
}

#[test]
fn duplicate_key_is_tolerated_at_exempt_heights() {
    let mut set = UtxoSet::new();
    let t = txid(1);
    set.add_output(&t, 0, 500, 91_842).unwrap();
    set.add_output(&t, 0, 600, 91_842).unwrap();
    assert_eq!(set.get_value(&t, 0), Some(600));

    let u = txid(2);
    set.add_output(&u, 3, 100, 91_880).unwrap();
    set.add_output(&u, 3, 200, 91_880).unwrap();
    assert_eq!(set.get_value(&u, 3), Some(200));
}

#[test]
fn distinct_outputs_get_distinct_keys() {
    let t = txid(9);
    assert_ne!(utxo_key(&t, 0), utxo_key(&t, 1));
    assert_ne!(utxo_key(&txid(9), 0), utxo_key(&txid(10), 0));
}

#[test]
fn transaction_fee_is_inputs_minus_outputs() {
    let mut set = UtxoSet::new();
    let t = txid(1);
    set.add_output(&t, 0, 1_000, 0).unwrap();
    set.add_output(&t, 1, 250, 0).unwrap();
    let spender = TxSummary {
        txid: txid(2),
        weight: 800,
        inputs: vec![
            TxInSummary { prev_txid: t, prev_vout: 0 },
            TxInSummary { prev_txid: t, prev_vout: 1 },
        ],
        outputs: vec![TxOutSummary { value_sats: 1_100, is_op_return: false, script_len: 25 }],
    };
    assert_eq!(transaction_fee(&spender, &set), Ok(150));
}

#[test]
fn missing_input_is_fatal() {
    let set = UtxoSet::new();
    let spender = TxSummary {
        txid: txid(2),
        weight: 800,
        inputs: vec![TxInSummary { prev_txid: txid(1), prev_vout: 0 }],
        outputs: Vec::new(),
    };
    assert_eq!(transaction_fee(&spender, &set), Err(UtxoError::MissingInput));
}

#[test]
fn negative_fee_is_fatal() {
    let mut set = UtxoSet::new();
    let t = txid(1);
    set.add_output(&t, 0, 100, 0).unwrap();
    let spender = TxSummary {
        txid: txid(2),
        weight: 800,
        inputs: vec![TxInSummary { prev_txid: t, prev_vout: 0 }],
        outputs: vec![TxOutSummary { value_sats: 200, is_op_return: false, script_len: 25 }],
    };
    assert_eq!(transaction_fee(&spender, &set), Err(UtxoError::NegativeFee));
}

fn simple_block(outputs: Vec<TxOutSummary>, inputs: Vec<TxInSummary>) -> BlockSummary {
    BlockSummary {
        time: 0,
        txs: vec![
            TxSummary { txid: txid(1), weight: 400, inputs: Vec::new(), outputs },
            TxSummary {
                txid: txid(2),
                weight: 600,
                inputs,
                outputs: vec![TxOutSummary {
                    value_sats: 1,
                    is_op_return: false,
                    script_len: 25,
                }],
            },
        ],
    }
}

#[test]
fn block_outputs_skip_data_carriers() {
    let mut set = UtxoSet::new();
    let block = simple_block(
        vec![
            TxOutSummary { value_sats: 50, is_op_return: false, script_len: 25 },
            TxOutSummary { value_sats: 0, is_op_return: true, script_len: 40 },
        ],
        Vec::new(),
    );
    apply_block_outputs(&mut set, &block, 0).unwrap();
    assert_eq!(set.get_value(&txid(1), 0), Some(50));
    assert_eq!(set.get_value(&txid(1), 1), None);
    // One coinbase output plus the spender's own output.
    assert_eq!(set.len(), 2);
}

#[test]
fn same_block_spend_survives_until_commit() {
    let mut set = UtxoSet::new();
    let block = simple_block(
        vec![TxOutSummary { value_sats: 50, is_op_return: false, script_len: 25 }],
        vec![TxInSummary { prev_txid: txid(1), prev_vout: 0 }],
    );
    apply_block_outputs(&mut set, &block, 0).unwrap();
    // The spend of the same-block output still resolves before commit.
    assert_eq!(set.get_value(&txid(1), 0), Some(50));
    mark_block_inputs(&mut set, &block);
    assert_eq!(set.get_value(&txid(1), 0), Some(50));
    set.commit_removals();
    assert_eq!(set.get_value(&txid(1), 0), None);
    assert_eq!(set.get_value(&txid(2), 0), Some(1));
}

#[test]
fn block_output_collision_aborts() {
    let mut set = UtxoSet::new();
    let block = simple_block(
        vec![TxOutSummary { value_sats: 50, is_op_return: false, script_len: 25 }],
        Vec::new(),
    );
    apply_block_outputs(&mut set, &block, 0).unwrap();
    let mut fresh = UtxoSet::new();
    fresh.add_output(&txid(1), 0, 99, 0).unwrap();
    assert_eq!(apply_block_outputs(&mut fresh, &block, 7), Err(UtxoError::KeyCollision));
}
