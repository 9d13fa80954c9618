//! A 256-bit content hash held as four 64-bit little-endian words.

use vstd::prelude::*;

verus! {

/// A 256-bit hash identifying a block or a transaction.
///
/// The 32 bytes of the underlying digest are packed little-endian into four
/// words: `w0` holds bytes 0..8, `w1` bytes 8..16, and so on.
#[derive(Clone, Copy, PartialEq, Eq, Hash, Debug, Structural)]
pub struct Hash256 {
    pub w0: u64,
    pub w1: u64,
    pub w2: u64,
    pub w3: u64,
}

/// The little-endian value of the eight bytes of `s` starting at `off`.
pub open spec fn le64_at(s: Seq<u8>, off: int) -> int {
    s[off] + s[off + 1] * 0x100 + s[off + 2] * 0x1_0000 + s[off + 3] * 0x100_0000 + s[off + 4]
        * 0x1_0000_0000 + s[off + 5] * 0x100_0000_0000 + s[off + 6] * 0x1_0000_0000_0000 + s[off
        + 7] * 0x100_0000_0000_0000
}

/// The little-endian value of the four bytes of `s` starting at `off`.
pub open spec fn le32_at(s: Seq<u8>, off: int) -> int {
    s[off] + s[off + 1] * 0x100 + s[off + 2] * 0x1_0000 + s[off + 3] * 0x100_0000
}

/// The hash whose 32 little-endian bytes are `s[off..off + 32]`.
pub open spec fn spec_hash_from_bytes(s: Seq<u8>, off: int) -> Hash256 {
    Hash256 {
        w0: le64_at(s, off) as u64,
        w1: le64_at(s, off + 8) as u64,
        w2: le64_at(s, off + 16) as u64,
        w3: le64_at(s, off + 24) as u64,
    }
}

impl Hash256 {
    /// The all-zero hash, used as the predecessor link of the genesis block.
    pub fn zero() -> (r: Hash256)
        ensures
            r == (Hash256 { w0: 0u64, w1: 0u64, w2: 0u64, w3: 0u64 }),
    {
        Hash256 { w0: 0, w1: 0, w2: 0, w3: 0 }
    }

    /// Whether this is the all-zero hash.
    pub fn is_zero(&self) -> (r: bool)
        ensures
            r == (*self == (Hash256 { w0: 0u64, w1: 0u64, w2: 0u64, w3: 0u64 })),
    {
        self.w0 == 0 && self.w1 == 0 && self.w2 == 0 && self.w3 == 0
    }
}

/// Reads eight bytes of a 32-byte digest as a little-endian word.
fn word_of_digest(b: &[u8; 32], off: usize) -> (r: u64)
    requires
        off + 8 <= 32,
    ensures
        r == le64_at(b@, off as int),
{
    let b0 = b[off] as u64;
    let b1 = b[off + 1] as u64;
    let b2 = b[off + 2] as u64;
    let b3 = b[off + 3] as u64;
    let b4 = b[off + 4] as u64;
    let b5 = b[off + 5] as u64;
    let b6 = b[off + 6] as u64;
    let b7 = b[off + 7] as u64;
    b0 + b1 * 0x100 + b2 * 0x1_0000 + b3 * 0x100_0000 + b4 * 0x1_0000_0000 + b5 * 0x100_0000_0000
        + b6 * 0x1_0000_0000_0000 + b7 * 0x100_0000_0000_0000
}

/// Packs a 32-byte digest into a hash, little-endian per word.
pub fn hash_from_array(b: &[u8; 32]) -> (r: Hash256)
    ensures
        r == spec_hash_from_bytes(b@, 0),
{
    Hash256 {
        w0: word_of_digest(b, 0),
        w1: word_of_digest(b, 8),
        w2: word_of_digest(b, 16),
        w3: word_of_digest(b, 24),
    }
}

/// Reads the eight bytes of `data` starting at `off` as a little-endian word.
pub fn read_le64(data: &Vec<u8>, off: usize) -> (r: u64)
    requires
        off + 8 <= data.len(),
    ensures
        r == le64_at(data@, off as int),
{
    let b0 = data[off] as u64;
    let b1 = data[off + 1] as u64;
    let b2 = data[off + 2] as u64;
    let b3 = data[off + 3] as u64;
    let b4 = data[off + 4] as u64;
    let b5 = data[off + 5] as u64;
    let b6 = data[off + 6] as u64;
    let b7 = data[off + 7] as u64;
    b0 + b1 * 0x100 + b2 * 0x1_0000 + b3 * 0x100_0000 + b4 * 0x1_0000_0000 + b5 * 0x100_0000_0000
        + b6 * 0x1_0000_0000_0000 + b7 * 0x100_0000_0000_0000
}

/// Reads the four bytes of `data` starting at `off` as a little-endian word.
pub fn read_le32(data: &Vec<u8>, off: usize) -> (r: u32)
    requires
        off + 4 <= data.len(),
    ensures
        r == le32_at(data@, off as int),
{
    let b0 = data[off] as u32;
    let b1 = data[off + 1] as u32;
    let b2 = data[off + 2] as u32;
    let b3 = data[off + 3] as u32;
    b0 + b1 * 0x100 + b2 * 0x1_0000 + b3 * 0x100_0000
}

/// Packs the 32 bytes of `data` starting at `off` into a hash, little-endian
/// per word.
pub fn hash_from_bytes(data: &Vec<u8>, off: usize) -> (r: Hash256)
    requires
        off + 32 <= data.len(),
    ensures
        r == spec_hash_from_bytes(data@, off as int),
{
    Hash256 {
        w0: read_le64(data, off),
        w1: read_le64(data, off + 8),
        w2: read_le64(data, off + 16),
        w3: read_le64(data, off + 24),
    }
}

} // verus!
