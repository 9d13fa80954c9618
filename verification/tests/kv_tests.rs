use chainscan::hash::Hash256;
use chainscan::kv::{
    deobfuscate_value, get_block_info_by_height, get_tip_height, is_in_active_chain,
    parse_block_info, read_best_block_hash, read_obfuscate_key, read_obfuscation_key, KvError,
};

#[test]
fn deobfuscate_wraps_over_key_length() {
    let data = vec![0x10, 0x20, 0x30, 0x40, 0x50];
    let key = vec![0x01, 0x02];
    let out = deobfuscate_value(&data, &key);
    assert_eq!(out, vec![0x11, 0x22, 0x31, 0x42, 0x51]);
}

#[test]
fn deobfuscate_zero_key_is_identity() {
    let data = vec![0xde, 0xad, 0xbe, 0xef];
    let key = vec![0, 0, 0, 0, 0, 0, 0, 0];
    assert_eq!(deobfuscate_value(&data, &key), data);
}

#[test]
fn deobfuscate_empty_key_is_identity() {
    let data = vec![1, 2, 3];
    let key: Vec<u8> = Vec::new();
    assert_eq!(deobfuscate_value(&data, &key), data);
}

#[test]
fn deobfuscate_is_symmetric() {
    let data = vec![9, 8, 7, 6, 5, 4, 3, 2, 1];
    let key = vec![0xaa, 0x55, 0x0f];
    let once = deobfuscate_value(&data, &key);
    let twice = deobfuscate_value(&once, &key);
    assert_eq!(twice, data);
}

fn block_record(height: u32, status: u32, file_number: u32, file_offset: u32) -> Vec<u8> {
    let mut v = vec![0u8; 32];
    v[0..4].copy_from_slice(&height.to_le_bytes());
    v[4..8].copy_from_slice(&status.to_le_bytes());
    v[12..16].copy_from_slice(&file_number.to_le_bytes());
    v[16..20].copy_from_slice(&file_offset.to_le_bytes());
    v
}

#[test]
fn parse_block_info_reads_fixed_fields() {
    let v = block_record(123_456, 0x1d, 7, 0xdead);
    let info = parse_block_info(&v).unwrap();
    assert_eq!(info.height, 123_456);
    assert_eq!(info.file_number, 7);
    assert_eq!(info.file_offset, 0xdead);
    assert_eq!(info.block_size, 0);
}

#[test]
fn parse_block_info_rejects_short_record() {
    let v = vec![0u8; 31];
    assert_eq!(parse_block_info(&v), Err(KvError::BlockInfoTooShort));
}

#[test]
fn active_chain_bit_is_honoured() {
    assert!(is_in_active_chain(&block_record(1, 0x04, 0, 0)));
    assert!(is_in_active_chain(&block_record(1, 0x1d, 0, 0)));
    assert!(!is_in_active_chain(&block_record(1, 0x03, 0, 0)));
    assert!(!is_in_active_chain(&vec![0u8; 7]));
}

#[test]
fn index_obfuscation_key_takes_first_eight_bytes() {
    let rec = vec![1, 2, 3, 4, 5, 6, 7, 8, 9, 10];
    assert_eq!(read_obfuscate_key(Some(rec)), vec![1, 2, 3, 4, 5, 6, 7, 8]);
}

#[test]
fn index_obfuscation_key_defaults_to_zero() {
    assert_eq!(read_obfuscate_key(None), vec![0u8; 8]);
    assert_eq!(read_obfuscate_key(Some(vec![1, 2, 3])), vec![0u8; 8]);
}

#[test]
fn chainstate_obfuscation_key_drops_format_byte() {
    let rec = vec![8, 1, 2, 3, 4, 5, 6, 7, 8];
    assert_eq!(read_obfuscation_key(Some(rec)).unwrap(), vec![1, 2, 3, 4, 5, 6, 7, 8]);
}

#[test]
fn chainstate_obfuscation_key_missing_is_fatal() {
    assert_eq!(read_obfuscation_key(None), Err(KvError::MissingObfuscationKey));
}

#[test]
fn chainstate_obfuscation_key_short_is_fatal() {
    assert_eq!(read_obfuscation_key(Some(vec![1, 2, 3])), Err(KvError::ShortObfuscationKey));
}

#[test]
fn best_block_hash_is_first_32_bytes_after_unmasking() {
    let mut value = vec![0u8; 40];
    value[0] = 0x11;
    value[8] = 0x22;
    let key = vec![0u8; 8];
    let h = read_best_block_hash(Some(&value), &key).unwrap();
    assert_eq!(h, Hash256 { w0: 0x11, w1: 0x22, w2: 0, w3: 0 });
}

#[test]
fn best_block_hash_short_record_is_fatal() {
    let key = vec![0u8; 8];
    assert_eq!(read_best_block_hash(Some(&vec![0u8; 31]), &key), Err(KvError::TipRecordTooShort));
    assert_eq!(read_best_block_hash(None, &key), Err(KvError::MissingTipRecord));
}

fn entry(height: u32, status: u32) -> (Vec<u8>, Vec<u8>) {
    let mut key = vec![b'b'];
    key.extend_from_slice(&[height as u8; 32]);
    (key, block_record(height, status, 0, 0))
}

#[test]
fn tip_height_is_greatest_active_height() {
    let entries = vec![entry(5, 0x04), entry(9, 0x04), entry(20, 0x03), entry(2, 0x04)];
    let key = vec![0u8; 8];
    assert_eq!(get_tip_height(&entries, &key), Ok(9));
}

#[test]
fn tip_height_without_active_records_is_fatal() {
    let entries = vec![entry(5, 0x03)];
    let key = vec![0u8; 8];
    assert_eq!(get_tip_height(&entries, &key), Err(KvError::NoTipHeight));
}

#[test]
fn block_info_lookup_takes_first_match_and_key_hash() {
    let entries = vec![entry(5, 0x04), entry(9, 0x04)];
    let key = vec![0u8; 8];
    let info = get_block_info_by_height(&entries, &key, 9).unwrap();
    assert_eq!(info.height, 9);
    assert_eq!(info.hash.w0, u64::from_le_bytes([9; 8]));
    assert!(get_block_info_by_height(&entries, &key, 4).is_none());
}

#[test]
fn tip_scan_unmasks_each_value_independently() {
    let key = vec![0x5a; 4];
    let plain = block_record(33, 0x04, 0, 0);
    let masked = deobfuscate_value(&plain, &key);
    let mut k = vec![b'b'];
    k.extend_from_slice(&[7u8; 32]);
    let entries = vec![(k, masked)];
    assert_eq!(get_tip_height(&entries, &key), Ok(33));
}
