use bitcoin::absolute::LockTime;
use bitcoin::block::{Header, Version};
use bitcoin::hashes::Hash as _;
use bitcoin::transaction::Version as TxVersion;
use bitcoin::{
    Amount, Block, BlockHash, CompactTarget, OutPoint, ScriptBuf, Sequence, Transaction, TxIn,
    TxMerkleNode, TxOut, Witness,
};
use chainscan::codec::{encode_record, scan_blocks_resync, CodecError, ContainerReader};
use chainscan::hash::Hash256;

fn header(prev: BlockHash, time: u32, nonce: u32) -> Header {
    Header {
        version: Version::ONE,
        prev_blockhash: prev,
        merkle_root: TxMerkleNode::from_byte_array([0u8; 32]),
        time,
        bits: CompactTarget::from_consensus(0x1d00_ffff),
        nonce,
    }
}

fn coinbase(value: u64) -> Transaction {
    Transaction {
        version: TxVersion::ONE,
        lock_time: LockTime::ZERO,
        input: vec![TxIn {
            previous_output: OutPoint::null(),
            script_sig: ScriptBuf::new(),
            sequence: Sequence::MAX,
            witness: Witness::new(),
        }],
        output: vec![TxOut { value: Amount::from_sat(value), script_pubkey: ScriptBuf::new() }],
    }
}

fn h256(bytes: [u8; 32]) -> Hash256 {
    Hash256 {
        w0: u64::from_le_bytes(bytes[0..8].try_into().unwrap()),
        w1: u64::from_le_bytes(bytes[8..16].try_into().unwrap()),
        w2: u64::from_le_bytes(bytes[16..24].try_into().unwrap()),
        w3: u64::from_le_bytes(bytes[24..32].try_into().unwrap()),
    }
}

/// Builds a container by hand: magic, little-endian length, payload, all
/// XOR-masked against the absolute offset.
fn append_record(container: &mut Vec<u8>, payload: &[u8], key: [u8; 8]) {
    let base = container.len();
    let mut plain = vec![0xf9, 0xbe, 0xb4, 0xd9];
    plain.extend_from_slice(&(payload.len() as u32).to_le_bytes());
    plain.extend_from_slice(payload);
    for (i, b) in plain.iter().enumerate() {
        container.push(b ^ key[(base + i) % 8]);
    }
}

const KEY: [u8; 8] = [0x11, 0x22, 0x33, 0x44, 0x55, 0x66, 0x77, 0x88];

#[test]
fn header_scan_decodes_masked_records() {
    let hdr = header(BlockHash::from_byte_array([0u8; 32]), 1_234_567, 7);
    let block = Block { header: hdr, txdata: vec![coinbase(5_000_000_000)] };
    let payload = bitcoin::consensus::serialize(&block);
    let mut container = Vec::new();
    append_record(&mut container, &payload, KEY);

    let mut reader = ContainerReader::new_with_xor_key(container, KEY);
    let (info, offset, size) = reader.read_next_header().unwrap().unwrap();
    assert_eq!(offset, 0);
    assert_eq!(size as usize, payload.len());
    assert_eq!(info.time, 1_234_567);
    assert_eq!(info.prev_hash, h256([0u8; 32]));
    assert_eq!(info.hash, h256(hdr.block_hash().to_byte_array()));
    // Nothing after the record: a clean end of stream.
    assert_eq!(reader.read_next_header().unwrap(), None);
}

#[test]
fn round_trip_reproduces_original_bytes() {
    let hdr = header(BlockHash::from_byte_array([9u8; 32]), 42, 1);
    let payload = bitcoin::consensus::serialize(&Block {
        header: hdr,
        txdata: vec![coinbase(50)],
    });
    let mut container = Vec::new();
    append_record(&mut container, &payload, KEY);
    let payload_vec = payload.clone();
    let re_encoded = encode_record(&payload_vec, &KEY, 0);
    assert_eq!(re_encoded, container);
}

#[test]
fn phase_follows_absolute_offset_across_seeks() {
    let hdr_a = header(BlockHash::from_byte_array([0u8; 32]), 1, 1);
    let block_a = Block { header: hdr_a, txdata: vec![coinbase(50)] };
    let hdr_b = header(hdr_a.block_hash(), 2, 2);
    let block_b = Block { header: hdr_b, txdata: vec![coinbase(25)] };
    let bytes_a = bitcoin::consensus::serialize(&block_a);
    let bytes_b = bitcoin::consensus::serialize(&block_b);
    let mut container = Vec::new();
    append_record(&mut container, &bytes_a, KEY);
    let second_offset = container.len() as u64;
    append_record(&mut container, &bytes_b, KEY);

    let mut reader = ContainerReader::new_with_xor_key(container, KEY);
    // Jump straight to the second record; the key phase must resume
    // correctly from its absolute offset.
    reader.seek_to_offset(second_offset);
    let (info, offset, _) = reader.read_next_header().unwrap().unwrap();
    assert_eq!(offset, second_offset);
    assert_eq!(info.hash, h256(hdr_b.block_hash().to_byte_array()));
    // Re-reading after an arbitrary seek gives the identical answer.
    reader.seek_to_offset(second_offset);
    let (again, _, _) = reader.read_next_header().unwrap().unwrap();
    assert_eq!(again, info);
}

#[test]
fn zero_padding_ends_header_scan_quietly() {
    let hdr = header(BlockHash::from_byte_array([0u8; 32]), 5, 5);
    let payload = bitcoin::consensus::serialize(&Block { header: hdr, txdata: vec![coinbase(1)] });
    let mut container = Vec::new();
    append_record(&mut container, &payload, KEY);
    container.extend_from_slice(&[0u8; 64]);

    let mut reader = ContainerReader::new_with_xor_key(container, KEY);
    let scanned = reader.scan_headers().unwrap();
    assert_eq!(scanned.len(), 1);
}

#[test]
fn bad_magic_is_fatal_for_scans() {
    let mut container = vec![1u8; 96];
    container[0] = 0xff;
    let mut reader = ContainerReader::new_with_xor_key(container, [0u8; 8]);
    assert_eq!(reader.read_next_header(), Err(CodecError::BadMagic));
}

#[test]
fn truncated_payload_is_fatal() {
    let mut container = Vec::new();
    append_record(&mut container, &[0u8; 100], [0u8; 8]);
    container.truncate(40);
    let mut reader = ContainerReader::new_with_xor_key(container, [0u8; 8]);
    assert_eq!(reader.read_next_header(), Err(CodecError::TruncatedPayload));
}

#[test]
fn full_block_read_decodes_transactions() {
    let hdr = header(BlockHash::from_byte_array([0u8; 32]), 77, 3);
    let block = Block { header: hdr, txdata: vec![coinbase(5_000_000_000)] };
    let payload = bitcoin::consensus::serialize(&block);
    let mut container = Vec::new();
    append_record(&mut container, &payload, KEY);

    let mut reader = ContainerReader::new_with_xor_key(container, KEY);
    let (summary, offset) = reader.read_next_block().unwrap().unwrap();
    assert_eq!(offset, 0);
    assert_eq!(summary.time, 77);
    assert_eq!(summary.txs.len(), 1);
    assert_eq!(summary.txs[0].outputs.len(), 1);
    assert_eq!(summary.txs[0].outputs[0].value_sats, 5_000_000_000);
    assert_eq!(
        summary.txs[0].txid,
        h256(block.txdata[0].compute_txid().to_byte_array())
    );
}

#[test]
fn resync_scan_skips_garbage() {
    let hdr = header(BlockHash::from_byte_array([0u8; 32]), 9, 9);
    let block = Block { header: hdr, txdata: vec![coinbase(1000)] };
    let payload = bitcoin::consensus::serialize(&block);
    let mut container = vec![0xab, 0xcd, 0xef];
    // Unmasked records: the resynchronising scanner reads raw bytes.
    append_record(&mut container, &payload, [0u8; 8]);
    container.extend_from_slice(&[0x13, 0x37]);
    append_record(&mut container, &payload, [0u8; 8]);

    let found = scan_blocks_resync(&container);
    assert_eq!(found.len(), 2);
    assert_eq!(found[0].time, 9);
    assert_eq!(found[1].txs[0].outputs[0].value_sats, 1000);
}
