use chainscan::block::{BlockSummary, TxInSummary, TxOutSummary, TxSummary};
use chainscan::columns::{
    calculate_quantiles, compute_row, extract_multi, extract_single, sort_values, ColumnSpec,
    ColumnValue, ExtractError, MultiMetric, SingleMetric,
};
use chainscan::hash::Hash256;
use chainscan::parse::{
    column_requires_utxo, expand_column_names, parse_column_spec, u64_to_string,
    validate_columns, ConfigError,
};
use chainscan::utxo::{UtxoError, UtxoSet};

fn txid(n: u64) -> Hash256 {
    Hash256 { w0: n, w1: 0, w2: 0, w3: 0 }
}

fn out(value: u64) -> TxOutSummary {
    TxOutSummary { value_sats: value, is_op_return: false, script_len: 25 }
}

fn opret(len: u64) -> TxOutSummary {
    TxOutSummary { value_sats: 0, is_op_return: true, script_len: len }
}

fn tx(n: u64, weight: u64, inputs: Vec<TxInSummary>, outputs: Vec<TxOutSummary>) -> TxSummary {
    TxSummary { txid: txid(n), weight, inputs, outputs }
}

fn sample_block() -> BlockSummary {
    BlockSummary {
        time: 1_700_000_000,
        txs: vec![
            tx(1, 400, Vec::new(), vec![out(5_000_000_100)]),
            tx(
                2,
                800,
                vec![TxInSummary { prev_txid: txid(1), prev_vout: 0 }],
                vec![out(10), opret(45), opret(90)],
            ),
        ],
    }
}

#[test]
fn quantiles_interpolate_sorted_data() {
    let data: Vec<u128> = vec![1, 2, 3, 4, 5];
    let qs: Vec<u64> = vec![50, 0, 100, 25];
    let got = calculate_quantiles(&data, &qs);
    // Values come back in hundredths: 3, 1, 5 and 2 exactly.
    assert_eq!(got, vec![300, 100, 500, 200]);
}

#[test]
fn quantiles_blend_between_ranks() {
    let data: Vec<u128> = vec![10, 20];
    let got = calculate_quantiles(&data, &vec![50, 10]);
    // Midpoint of 10 and 20 is 15; one tenth of the way is 11.
    assert_eq!(got, vec![1500, 1100]);
}

#[test]
fn quantiles_of_empty_data_are_zero() {
    let data: Vec<u128> = Vec::new();
    assert_eq!(calculate_quantiles(&data, &vec![0, 50, 100]), vec![0, 0, 0]);
}

#[test]
fn sorting_orders_ascending() {
    let v: Vec<u128> = vec![5, 1, 4, 1, 3];
    assert_eq!(sort_values(&v), vec![1, 1, 3, 4, 5]);
}

#[test]
fn single_metrics_read_the_block() {
    let b = sample_block();
    let get = |m: SingleMetric| extract_single(m, &b, 31, 999, None).unwrap();
    assert_eq!(get(SingleMetric::Height), ColumnValue { num: 31, den: 1 });
    assert_eq!(get(SingleMetric::Timestamp), ColumnValue { num: 1_700_000_000, den: 1 });
    assert_eq!(get(SingleMetric::TxCount), ColumnValue { num: 2, den: 1 });
    assert_eq!(get(SingleMetric::BlockSize), ColumnValue { num: 999, den: 1 });
    assert_eq!(get(SingleMetric::OpReturnCount), ColumnValue { num: 2, den: 1 });
    assert_eq!(get(SingleMetric::OpReturnBytes), ColumnValue { num: 135, den: 1 });
    assert_eq!(get(SingleMetric::OpReturnGt40), ColumnValue { num: 2, den: 1 });
    assert_eq!(get(SingleMetric::OpReturnGt80), ColumnValue { num: 1, den: 1 });
}

#[test]
fn fee_avg_is_fees_over_virtual_size() {
    let b = sample_block();
    // Coinbase claims 100 beyond the height-31 subsidy; spender weighs 800.
    let got = extract_single(SingleMetric::FeeAvg, &b, 31, 0, None).unwrap();
    assert_eq!(got, ColumnValue { num: 400, den: 800 });
}

#[test]
fn utxo_size_requires_the_tracker() {
    let b = sample_block();
    assert_eq!(
        extract_single(SingleMetric::UtxoSize, &b, 0, 0, None),
        Err(ExtractError::UtxoRequired)
    );
    let mut set = UtxoSet::new();
    set.add_output(&txid(1), 0, 1, 0).unwrap();
    assert_eq!(
        extract_single(SingleMetric::UtxoSize, &b, 0, 0, Some(&set)),
        Ok(ColumnValue { num: 1, den: 1 })
    );
}

#[test]
fn tx_size_distribution_lists_noncoinbase_weights() {
    let b = sample_block();
    assert_eq!(extract_multi(MultiMetric::TxSize, &b, None), Ok(vec![800]));
}

#[test]
fn fee_rates_use_tracked_inputs() {
    let b = sample_block();
    let mut set = UtxoSet::new();
    set.add_output(&txid(1), 0, 1_010, 0).unwrap();
    // Fee 1000 over 200 virtual bytes: five hundredths-of-sat per vbyte each.
    assert_eq!(extract_multi(MultiMetric::FeeRates, &b, Some(&set)), Ok(vec![500]));
    assert_eq!(
        extract_multi(MultiMetric::FeeRates, &b, None),
        Err(ExtractError::UtxoRequired)
    );
}

#[test]
fn fee_rates_missing_input_aborts() {
    let b = sample_block();
    let set = UtxoSet::new();
    assert_eq!(
        extract_multi(MultiMetric::FeeRates, &b, Some(&set)),
        Err(ExtractError::Utxo(UtxoError::MissingInput))
    );
}

#[test]
fn compute_row_mixes_single_and_quantile_columns() {
    let b = sample_block();
    let specs = vec![
        ColumnSpec::Single { name: String::from("tx_count"), metric: SingleMetric::TxCount },
        ColumnSpec::Multi {
            name: String::from("tx_size"),
            quantiles: vec![0, 100],
            metric: MultiMetric::TxSize,
        },
    ];
    let row = compute_row(&specs, &b, 31, 999, None).unwrap();
    assert_eq!(row.len(), 3);
    assert_eq!(row[0], ColumnValue { num: 2, den: 1 });
    // Weight 800 in hundredths over the virtual-byte denominator of 400.
    assert_eq!(row[1], ColumnValue { num: 80_000, den: 400 });
    assert_eq!(row[2], ColumnValue { num: 80_000, den: 400 });
}

#[test]
fn compute_row_propagates_extraction_errors() {
    let b = sample_block();
    let specs = vec![ColumnSpec::Single {
        name: String::from("utxo_size"),
        metric: SingleMetric::UtxoSize,
    }];
    assert_eq!(compute_row(&specs, &b, 0, 0, None), Err(ExtractError::UtxoRequired));
}

#[test]
fn parse_accepts_single_columns() {
    match parse_column_spec("height").unwrap() {
        ColumnSpec::Single { name, metric } => {
            assert_eq!(name, "height");
            assert_eq!(metric, SingleMetric::Height);
        },
        _ => panic!("expected a single column"),
    }
}

#[test]
fn parse_accepts_quantile_columns() {
    match parse_column_spec("tx_size[25, 50,75]").unwrap() {
        ColumnSpec::Multi { name, quantiles, metric } => {
            assert_eq!(name, "tx_size");
            assert_eq!(quantiles, vec![25, 50, 75]);
            assert_eq!(metric, MultiMetric::TxSize);
        },
        _ => panic!("expected a quantile column"),
    }
}

#[test]
fn parse_rejects_malformed_requests() {
    assert_eq!(parse_column_spec("nonsense"), Err(ConfigError::UnknownColumn));
    assert_eq!(parse_column_spec("tx_size[50"), Err(ConfigError::UnterminatedQuantiles));
    assert_eq!(parse_column_spec("tx_size[abc]"), Err(ConfigError::InvalidQuantile));
    assert_eq!(parse_column_spec("tx_size[]"), Err(ConfigError::InvalidQuantile));
    assert_eq!(parse_column_spec("tx_size[101]"), Err(ConfigError::QuantileOutOfRange));
    assert_eq!(parse_column_spec("tx_size[-5]"), Err(ConfigError::QuantileOutOfRange));
    assert_eq!(parse_column_spec("height[50]"), Err(ConfigError::UnknownMultiColumn));
}

#[test]
fn tracker_columns_demand_the_flag() {
    assert!(column_requires_utxo("fee_rates"));
    assert!(column_requires_utxo("utxo_size"));
    assert!(!column_requires_utxo("tx_count"));

    let columns = vec![String::from("tx_count"), String::from("fee_rates[50]")];
    assert_eq!(validate_columns(&columns, false), Err(ConfigError::UtxoTrackingRequired));
    assert_eq!(validate_columns(&columns, true), Ok(()));
    let plain = vec![String::from("tx_count")];
    assert_eq!(validate_columns(&plain, false), Ok(()));
}

#[test]
fn decimal_spelling() {
    assert_eq!(u64_to_string(0), "0");
    assert_eq!(u64_to_string(7), "7");
    assert_eq!(u64_to_string(105), "105");
}

#[test]
fn expanded_names_append_quantile_points() {
    let specs = vec![
        ColumnSpec::Single { name: String::from("height"), metric: SingleMetric::Height },
        ColumnSpec::Multi {
            name: String::from("tx_size"),
            quantiles: vec![25, 50],
            metric: MultiMetric::TxSize,
        },
    ];
    let names = expand_column_names(&specs);
    assert_eq!(names, vec!["height", "tx_size_25", "tx_size_50"]);
}

#[test]
fn format_hex_spaces_groups_of_eight() {
    let data = vec![0x00u8, 0xff, 0x12, 0x34, 0xab, 0xcd];
    assert_eq!(chainscan::hexfmt::format_hex(&data), "00ff1234 abcd");
}

#[test]
fn quantiles_of_single_element() {
    let data: Vec<u128> = vec![42];
    assert_eq!(calculate_quantiles(&data, &vec![0, 50, 100]), vec![4200, 4200, 4200]);
}

#[test]
fn parse_trims_spaces_inside_brackets() {
    match parse_column_spec("fee_rates[ 5 , 95 ]").unwrap() {
        ColumnSpec::Multi { quantiles, metric, .. } => {
            assert_eq!(quantiles, vec![5, 95]);
            assert_eq!(metric, MultiMetric::FeeRates);
        },
        _ => panic!("expected a quantile column"),
    }
}

#[test]
fn bare_tracker_column_demands_the_flag() {
    let columns = vec![String::from("utxo_size")];
    assert_eq!(validate_columns(&columns, false), Err(ConfigError::UtxoTrackingRequired));
}

#[test]
fn sorting_empty_and_singleton() {
    assert_eq!(sort_values(&Vec::new()), Vec::<u128>::new());
    assert_eq!(sort_values(&vec![9u128]), vec![9]);
}
