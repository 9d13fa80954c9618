//! Decoding of fixed-offset binary records from the client's legacy
//! key-value stores: per-record symmetric XOR deobfuscation, per-block
//! metadata records, the chain-tip pointer, and the two per-store
//! obfuscation-key conventions.

use vstd::prelude::*;
use crate::hash::{hash_from_bytes, le32_at, spec_hash_from_bytes, Hash256};

verus! {

/// Why a key-value record could not be decoded.
#[derive(Clone, Copy, PartialEq, Eq, Debug, Structural)]
pub enum KvError {
    /// A per-block metadata record was shorter than the 32 bytes its fixed
    /// fields occupy.
    BlockInfoTooShort,
    /// The chainstate store holds no obfuscation-key record, which that
    /// store format requires.
    MissingObfuscationKey,
    /// The chainstate obfuscation-key record was shorter than the nine bytes
    /// its format requires.
    ShortObfuscationKey,
    /// The store holds no chain-tip pointer record.
    MissingTipRecord,
    /// The chain-tip pointer record was shorter than the 32-byte block hash.
    TipRecordTooShort,
    /// No record in the store names a positive height on the active chain.
    NoTipHeight,
}

/// The key byte XORed against position `i` of a record value: the
/// obfuscation key repeats with wraparound over its own length, and an empty
/// key masks nothing.
pub open spec fn spec_kv_key_byte(key: Seq<u8>, i: int) -> u8 {
    if key.len() == 0 {
        0
    } else {
        key[i % key.len() as int]
    }
}

/// The record value `data` unmasked with the repeating `key`.
pub open spec fn spec_deobfuscate(data: Seq<u8>, key: Seq<u8>) -> Seq<u8> {
    Seq::new(data.len(), |i: int| data[i] ^ spec_kv_key_byte(key, i))
}

proof fn lemma_xor_zero(x: u8)
    ensures
        x ^ 0 == x,
{
    assert(x ^ 0 == x) by (bit_vector);
}

/// Unmasks one record value with the repeating obfuscation key. Unlike the
/// container codec's stream masking, the key phase restarts at zero for
/// every record value.
pub fn deobfuscate_value(data: &Vec<u8>, key: &Vec<u8>) -> (r: Vec<u8>)
    ensures
        r@ == spec_deobfuscate(data@, key@),
{
    let mut all_zero = true;
    let mut i: usize = 0;
    while i < key.len()
        invariant
            i <= key.len(),
            all_zero == (forall|j: int| 0 <= j < i ==> key@[j] == 0),
        decreases key.len() - i,
    {
        if key[i] != 0 {
            all_zero = false;
        }
        i = i + 1;
    }
    if all_zero {
        let r = data.clone();
        proof {
            assert forall|j: int| 0 <= j < data@.len() implies r@[j] == spec_deobfuscate(
                data@,
                key@,
            )[j] by {
                lemma_xor_zero(data@[j]);
            }
            assert(r@ =~= spec_deobfuscate(data@, key@));
        }
        return r;
    }
    let mut out: Vec<u8> = Vec::new();
    let mut i: usize = 0;
    while i < data.len()
        invariant
            i <= data.len(),
            key.len() > 0,
            out@ =~= spec_deobfuscate(data@, key@).take(i as int),
        decreases data.len() - i,
    {
        let kb = key[i % key.len()];
        out.push(data[i] ^ kb);
        proof {
            assert(out@ =~= spec_deobfuscate(data@, key@).take(i + 1));
        }
        i = i + 1;
    }
    proof {
        assert(spec_deobfuscate(data@, key@).take(data@.len() as int) =~= spec_deobfuscate(
            data@,
            key@,
        ));
    }
    out
}

/// The fixed little-endian fields of a per-block metadata record, plus the
/// block hash its store key carries.
#[derive(Clone, Copy, PartialEq, Eq, Debug, Structural)]
pub struct BlockInfo {
    /// The block's height as recorded by the store.
    pub height: u32,
    /// The block's content hash; zero until filled in from the record key.
    pub hash: Hash256,
    /// The number of the container file holding the block.
    pub file_number: u32,
    /// The byte offset of the block record inside that container.
    pub file_offset: u32,
    /// The block's serialized size; the store does not record it.
    pub block_size: u32,
}

/// The metadata fields read from an unmasked record value: height at byte 0,
/// container-file number at byte 12, container offset at byte 16.
pub open spec fn spec_block_info(value: Seq<u8>) -> BlockInfo {
    BlockInfo {
        height: le32_at(value, 0) as u32,
        hash: Hash256 { w0: 0, w1: 0, w2: 0, w3: 0 },
        file_number: le32_at(value, 12) as u32,
        file_offset: le32_at(value, 16) as u32,
        block_size: 0,
    }
}

/// Decodes an unmasked per-block metadata record. Values shorter than the
/// 32 bytes the fixed fields occupy are rejected.
pub fn parse_block_info(value: &Vec<u8>) -> (r: Result<BlockInfo, KvError>)
    ensures
        r is Ok <==> value@.len() >= 32,
        r matches Ok(info) ==> info == spec_block_info(value@),
        r matches Err(e) ==> e == KvError::BlockInfoTooShort,
{
    if value.len() < 32 {
        return Err(KvError::BlockInfoTooShort);
    }
    let height = crate::hash::read_le32(value, 0);
    let file_number = crate::hash::read_le32(value, 12);
    let file_offset = crate::hash::read_le32(value, 16);
    Ok(
        BlockInfo {
            height,
            hash: Hash256 { w0: 0, w1: 0, w2: 0, w3: 0 },
            file_number,
            file_offset,
            block_size: 0,
        },
    )
}

/// Whether an unmasked metadata record marks its block as part of the best
/// chain known to the store: bit 2 of the status flags at byte 4.
pub open spec fn spec_is_in_active_chain(value: Seq<u8>) -> bool {
    value.len() >= 8 && (le32_at(value, 4) as u32) & 0x04u32 != 0
}

/// Tests the active-chain status bit of an unmasked metadata record; records
/// too short to carry status flags are not on the active chain.
pub fn is_in_active_chain(value: &Vec<u8>) -> (r: bool)
    ensures
        r == spec_is_in_active_chain(value@),
{
    if value.len() < 8 {
        return false;
    }
    let status = crate::hash::read_le32(value, 4);
    status & 0x04 != 0
}

/// The effective XOR key of the block-index store: the first eight bytes of
/// the key record when it is present and long enough, and the all-zero key
/// (no obfuscation) otherwise.
pub open spec fn spec_index_obfuscation_key(record: Option<Vec<u8>>) -> Seq<u8> {
    match record {
        Some(v) => if v@.len() >= 8 {
            v@.take(8)
        } else {
            Seq::new(8nat, |i: int| 0u8)
        },
        None => Seq::new(8nat, |i: int| 0u8),
    }
}

/// Extracts the block-index store's XOR key from its optional key record.
/// A missing or short record means the store is not obfuscated.
pub fn read_obfuscate_key(record: Option<Vec<u8>>) -> (r: Vec<u8>)
    ensures
        r@ == spec_index_obfuscation_key(record),
        r@.len() == 8,
{
    match record {
        Some(v) => {
            if v.len() >= 8 {
                let mut out: Vec<u8> = Vec::new();
                let mut i: usize = 0;
                while i < 8
                    invariant
                        i <= 8,
                        v@.len() >= 8,
                        out@ =~= v@.take(i as int),
                    decreases 8 - i,
                {
                    out.push(v[i]);
                    proof {
                        assert(out@ =~= v@.take(i + 1));
                    }
                    i = i + 1;
                }
                out
            } else {
                zero_key()
            }
        },
        None => zero_key(),
    }
}

fn zero_key() -> (r: Vec<u8>)
    ensures
        r@ =~= Seq::new(8nat, |i: int| 0u8),
{
    let mut out: Vec<u8> = Vec::new();
    let mut i: usize = 0;
    while i < 8
        invariant
            i <= 8,
            out@ =~= Seq::new(i as nat, |j: int| 0u8),
        decreases 8 - i,
    {
        out.push(0);
        proof {
            assert(out@ =~= Seq::new((i + 1) as nat, |j: int| 0u8));
        }
        i = i + 1;
    }
    out
}

/// Extracts the chainstate store's XOR key from its optional key record:
/// everything after the leading format byte. Unlike the block-index store,
/// a missing record means the store is corrupt, and a record shorter than
/// nine bytes is malformed.
pub fn read_obfuscation_key(record: Option<Vec<u8>>) -> (r: Result<Vec<u8>, KvError>)
    ensures
        r is Ok <==> (record matches Some(v) && v@.len() >= 9),
        r matches Ok(k) ==> record matches Some(v) && k@ == v@.skip(1),
        r matches Err(e) ==> e == (match record {
            Some(v) => KvError::ShortObfuscationKey,
            None => KvError::MissingObfuscationKey,
        }),
{
    match record {
        Some(v) => {
            if v.len() < 9 {
                return Err(KvError::ShortObfuscationKey);
            }
            let mut out: Vec<u8> = Vec::new();
            let mut i: usize = 1;
            while i < v.len()
                invariant
                    1 <= i <= v@.len(),
                    out@ =~= v@.subrange(1, i as int),
                decreases v@.len() - i,
            {
                out.push(v[i]);
                proof {
                    assert(out@ =~= v@.subrange(1, i + 1));
                }
                i = i + 1;
            }
            proof {
                assert(v@.subrange(1, v@.len() as int) =~= v@.skip(1));
            }
            Ok(out)
        },
        None => Err(KvError::MissingObfuscationKey),
    }
}

/// Extracts the best-block hash from the optional chain-tip pointer record:
/// the first 32 bytes of the unmasked value.
pub fn read_best_block_hash(record: Option<&Vec<u8>>, key: &Vec<u8>) -> (r: Result<
    Hash256,
    KvError,
>)
    ensures
        r is Ok <==> (record matches Some(v) && v@.len() >= 32),
        r matches Ok(h) ==> record matches Some(v) && h == spec_hash_from_bytes(
            spec_deobfuscate(v@, key@),
            0,
        ),
        r matches Err(e) ==> e == (match record {
            Some(v) => KvError::TipRecordTooShort,
            None => KvError::MissingTipRecord,
        }),
{
    match record {
        Some(v) => {
            let value = deobfuscate_value(v, key);
            if value.len() < 32 {
                return Err(KvError::TipRecordTooShort);
            }
            Ok(hash_from_bytes(&value, 0))
        },
        None => Err(KvError::MissingTipRecord),
    }
}

/// The height field of a still-masked metadata record value.
pub open spec fn spec_record_height(value: Seq<u8>, key: Seq<u8>) -> int {
    le32_at(spec_deobfuscate(value, key), 0)
}

/// Whether a store entry is a well-formed per-block metadata record whose
/// block is on the active chain: a key long enough to carry a block hash and
/// starting with the block-record tag byte `b'b'`, and a value that unmasks
/// to a long-enough record with the active-chain bit set.
pub open spec fn spec_entry_is_active_block(k: Seq<u8>, v: Seq<u8>, key: Seq<u8>) -> bool {
    &&& k.len() >= 33
    &&& k[0] == 0x62u8
    &&& spec_deobfuscate(v, key).len() >= 32
    &&& spec_is_in_active_chain(spec_deobfuscate(v, key))
}

/// The greatest height named by any active-chain block record among
/// `entries`, and zero when there is none.
pub open spec fn spec_max_active_height(entries: Seq<(Vec<u8>, Vec<u8>)>, key: Seq<u8>) -> int
    decreases entries.len(),
{
    if entries.len() == 0 {
        0
    } else {
        let m = spec_max_active_height(entries.drop_last(), key);
        let e = entries.last();
        if spec_entry_is_active_block(e.0@, e.1@, key) && spec_record_height(e.1@, key) > m {
            spec_record_height(e.1@, key)
        } else {
            m
        }
    }
}

/// Scans the block-index store's entries for the greatest height carried by
/// an active-chain block record. A store naming no positive active height
/// cannot give a tip.
pub fn get_tip_height(entries: &Vec<(Vec<u8>, Vec<u8>)>, key: &Vec<u8>) -> (r: Result<
    u32,
    KvError,
>)
    ensures
        r is Ok <==> spec_max_active_height(entries@, key@) > 0,
        r matches Ok(h) ==> h == spec_max_active_height(entries@, key@),
        r matches Err(e) ==> e == KvError::NoTipHeight,
{
    let mut max_height: u32 = 0;
    let mut i: usize = 0;
    while i < entries.len()
        invariant
            i <= entries.len(),
            max_height == spec_max_active_height(entries@.take(i as int), key@),
        decreases entries.len() - i,
    {
        proof {
            assert(entries@.take((i + 1) as int).drop_last() =~= entries@.take(i as int));
            assert(entries@.take((i + 1) as int).last() == entries@[i as int]);
        }
        let k = &entries[i].0;
        let v = &entries[i].1;
        if k.len() >= 33 && k[0] == 0x62 {
            let value = deobfuscate_value(v, key);
            if value.len() >= 32 {
                let info_height = crate::hash::read_le32(&value, 0);
                if is_in_active_chain(&value) && info_height > max_height {
                    max_height = info_height;
                }
            }
        }
        i = i + 1;
    }
    proof {
        assert(entries@.take(entries@.len() as int) =~= entries@);
    }
    if max_height == 0 {
        return Err(KvError::NoTipHeight);
    }
    Ok(max_height)
}

/// The first active-chain block record among `entries` whose height field
/// equals `height`, with the block hash taken from the record key.
pub open spec fn spec_find_block_at_height(
    entries: Seq<(Vec<u8>, Vec<u8>)>,
    key: Seq<u8>,
    height: u32,
) -> Option<BlockInfo>
    decreases entries.len(),
{
    if entries.len() == 0 {
        None
    } else {
        let e = entries.first();
        if spec_entry_is_active_block(e.0@, e.1@, key) && spec_record_height(e.1@, key)
            == height {
            Some(
                BlockInfo {
                    hash: spec_hash_from_bytes(e.0@, 1),
                    ..spec_block_info(spec_deobfuscate(e.1@, key))
                },
            )
        } else {
            spec_find_block_at_height(entries.drop_first(), key, height)
        }
    }
}

/// Scans the block-index store's entries, in store order, for an
/// active-chain block record at `height`; the block hash comes from the
/// 32 key bytes after the record tag.
pub fn get_block_info_by_height(
    entries: &Vec<(Vec<u8>, Vec<u8>)>,
    key: &Vec<u8>,
    height: u32,
) -> (r: Option<BlockInfo>)
    ensures
        r == spec_find_block_at_height(entries@, key@, height),
{
    let mut i: usize = 0;
    proof {
        assert(entries@.skip(0) =~= entries@);
    }
    while i < entries.len()
        invariant
            i <= entries.len(),
            spec_find_block_at_height(entries@, key@, height) == spec_find_block_at_height(
                entries@.skip(i as int),
                key@,
                height,
            ),
        decreases entries.len() - i,
    {
        proof {
            assert(entries@.skip(i as int).first() == entries@[i as int]);
            assert(entries@.skip(i as int).drop_first() =~= entries@.skip(i + 1));
        }
        let k = &entries[i].0;
        let v = &entries[i].1;
        if k.len() >= 33 && k[0] == 0x62 {
            let value = deobfuscate_value(v, key);
            if value.len() >= 32 {
                let info_height = crate::hash::read_le32(&value, 0);
                if is_in_active_chain(&value) && info_height == height {
                    let mut info = match parse_block_info(&value) {
                        Ok(info) => info,
                        Err(_) => {
                            proof {
                                assert(false);
                            }
                            return None;
                        },
                    };
                    info.hash = hash_from_bytes(k, 1);
                    return Some(info);
                }
            }
        }
        i = i + 1;
    }
    proof {
        assert(entries@.skip(entries@.len() as int) =~= Seq::<(Vec<u8>, Vec<u8>)>::empty());
    }
    None
}

} // verus!
