use bitcoin::absolute::LockTime;
use bitcoin::block::{Header, Version};
use bitcoin::hashes::Hash as _;
use bitcoin::transaction::Version as TxVersion;
use bitcoin::{
    Amount, Block, BlockHash, CompactTarget, OutPoint, ScriptBuf, Sequence, Transaction, TxIn,
    TxMerkleNode, TxOut, Witness,
};
use chainscan::chain::{build_chain_index, BlockLocation, DiscoveredBlock};
use chainscan::codec::ContainerReader;
use chainscan::columns::{compute_row, ColumnSpec, ColumnValue, SingleMetric};
use chainscan::hash::Hash256;

fn coinbase(value: u64) -> Transaction {
    Transaction {
        version: TxVersion::ONE,
        lock_time: LockTime::ZERO,
        input: vec![TxIn {
            previous_output: OutPoint::null(),
            script_sig: ScriptBuf::new(),
            sequence: Sequence::MAX,
            witness: Witness::new(),
        }],
        output: vec![TxOut { value: Amount::from_sat(value), script_pubkey: ScriptBuf::new() }],
    }
}

fn h256(bytes: [u8; 32]) -> Hash256 {
    Hash256 {
        w0: u64::from_le_bytes(bytes[0..8].try_into().unwrap()),
        w1: u64::from_le_bytes(bytes[8..16].try_into().unwrap()),
        w2: u64::from_le_bytes(bytes[16..24].try_into().unwrap()),
        w3: u64::from_le_bytes(bytes[24..32].try_into().unwrap()),
    }
}

fn container_for(block: &Block, key: [u8; 8]) -> Vec<u8> {
    let payload = bitcoin::consensus::serialize(block);
    let mut plain = vec![0xf9, 0xbe, 0xb4, 0xd9];
    plain.extend_from_slice(&(payload.len() as u32).to_le_bytes());
    plain.extend_from_slice(&payload);
    plain.iter().enumerate().map(|(i, b)| b ^ key[i % 8]).collect()
}

#[test]
fn three_containers_build_a_three_entry_index() {
    let key = [7u8; 8];
    let genesis = Block {
        header: Header {
            version: Version::ONE,
            prev_blockhash: BlockHash::from_byte_array([0u8; 32]),
            merkle_root: TxMerkleNode::from_byte_array([1u8; 32]),
            time: 100,
            bits: CompactTarget::from_consensus(0x1d00_ffff),
            nonce: 0,
        },
        txdata: vec![coinbase(5_000_000_000)],
    };
    let block_a = Block {
        header: Header { prev_blockhash: genesis.block_hash(), time: 200, ..genesis.header },
        txdata: vec![coinbase(5_000_000_000)],
    };
    let block_b = Block {
        header: Header { prev_blockhash: block_a.block_hash(), time: 300, ..genesis.header },
        txdata: vec![coinbase(5_000_000_000)],
    };

    // Discover every container with the header-only scan.
    let mut discovered = Vec::new();
    for (file, block) in [(0u32, &genesis), (1, &block_a), (2, &block_b)] {
        let container = container_for(block, key);
        let mut reader = ContainerReader::new_with_xor_key(container, key);
        let found = reader.scan_headers().unwrap();
        assert_eq!(found.len(), 1);
        let (info, offset, size) = found[0];
        discovered.push(DiscoveredBlock {
            hash: info.hash,
            prev_hash: info.prev_hash,
            location: BlockLocation {
                file_path: format!("blk{:05}.dat", file),
                file_offset: offset,
                block_hash: info.hash,
                block_size: size,
            },
        });
    }

    // The index is dense over heights 0..=2 with the right tip.
    let index = build_chain_index(&discovered).unwrap();
    assert_eq!(index.tip_height, 2);
    for (height, block) in [(0u32, &genesis), (1, &block_a), (2, &block_b)] {
        let loc = index.get_block_location(height).unwrap();
        assert_eq!(loc.block_hash, h256(block.block_hash().to_byte_array()));
    }

    // Exporting tx_count over the whole range yields one row per block.
    let specs = vec![ColumnSpec::Single {
        name: String::from("tx_count"),
        metric: SingleMetric::TxCount,
    }];
    let mut rows = Vec::new();
    for (height, block) in [(0u32, &genesis), (1, &block_a), (2, &block_b)] {
        let loc = index.get_block_location(height).unwrap();
        let mut reader = ContainerReader::new_with_xor_key(container_for(block, key), key);
        reader.seek_to_offset(loc.file_offset);
        let (summary, _) = reader.read_next_block().unwrap().unwrap();
        let row = compute_row(&specs, &summary, height, loc.block_size, None).unwrap();
        rows.push(row);
    }
    assert_eq!(rows.len(), 3);
    for row in rows {
        assert_eq!(row, vec![ColumnValue { num: 1, den: 1 }]);
    }
}
