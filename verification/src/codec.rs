//! The block-container codec: length-prefixed records, optionally masked
//! with a repeating eight-byte XOR key whose phase is the absolute stream
//! offset, holding serialized blocks behind a four-byte magic constant.

use vstd::prelude::*;
use bitcoin::consensus::deserialize;
use bitcoin::hashes::Hash as _;
use crate::block::{BlockSummary, HeaderInfo, TxInSummary, TxOutSummary, TxSummary};
use crate::hash::{hash_from_array, le32_at, spec_hash_from_bytes, Hash256};

verus! {

/// Why a container record could not be decoded.
#[derive(Clone, Copy, PartialEq, Eq, Debug, Structural)]
pub enum CodecError {
    /// The unmasked record prefix does not start with the magic constant.
    BadMagic,
    /// The record claims more payload bytes than the stream holds, or fewer
    /// than a serialized block header occupies.
    TruncatedPayload,
    /// The record's payload bytes do not deserialize as a block.
    BlockDecode,
}

/// The key byte masking absolute stream offset `abs`: the key repeats over
/// its own length, and an empty key masks nothing.
pub open spec fn spec_stream_key_byte(key: Seq<u8>, abs: int) -> u8 {
    if key.len() == 0 {
        0
    } else {
        key[abs % key.len() as int]
    }
}

/// Byte `i` of the stream, unmasked with the phase its absolute offset
/// dictates.
pub open spec fn spec_unmasked_byte(data: Seq<u8>, key: Seq<u8>, i: int) -> u8 {
    data[i] ^ spec_stream_key_byte(key, i)
}

/// The `len` unmasked stream bytes starting at absolute offset `from`.
#[verifier::opaque]
pub open spec fn spec_unmasked_range(data: Seq<u8>, key: Seq<u8>, from: int, len: int) -> Seq<
    u8,
> {
    Seq::new(len as nat, |i: int| spec_unmasked_byte(data, key, from + i))
}

/// Whether the eight raw (still-masked) bytes at `p` are all zero; such a
/// prefix is trailing padding, tested before any unmasking.
#[verifier::opaque]
pub open spec fn spec_zero_prefix(data: Seq<u8>, p: int) -> bool {
    forall|i: int| p <= i < p + 8 ==> data[i] == 0
}

/// Whether the unmasked bytes at `p` carry the record magic constant
/// `0xD9B4BEF9`, transmitted little-endian as `F9 BE B4 D9`.
pub open spec fn spec_magic_ok(data: Seq<u8>, key: Seq<u8>, p: int) -> bool {
    &&& spec_unmasked_byte(data, key, p) == 0xf9u8
    &&& spec_unmasked_byte(data, key, p + 1) == 0xbeu8
    &&& spec_unmasked_byte(data, key, p + 2) == 0xb4u8
    &&& spec_unmasked_byte(data, key, p + 3) == 0xd9u8
}

/// The record's payload length: the unmasked little-endian word after the
/// magic.
pub open spec fn spec_payload_len(data: Seq<u8>, key: Seq<u8>, p: int) -> int {
    le32_at(spec_unmasked_range(data, key, p + 4, 4), 0)
}

/// The content hash of the 80-byte serialized block header `data`.
pub uninterp spec fn spec_header_digest(data: Seq<u8>) -> Hash256;

/// What a byte sequence deserializes to as a complete block, when it does.
pub uninterp spec fn spec_parsed_block(data: Seq<u8>) -> Option<BlockSummary>;

/// Relies on `bitcoin::consensus::deserialize::<Header>`, which accepts
/// exactly 80 bytes of fixed-width fields and cannot otherwise fail, and on
/// `Header::block_hash`, a digest of those bytes alone. The predecessor hash
/// and the timestamp sit at fixed offsets of the serialized form.
#[verifier::external_body]
fn decode_header_bytes(data: &Vec<u8>) -> (r: Option<HeaderInfo>)
    ensures
        r is Some <==> data@.len() == 80,
        r matches Some(h) ==> h == (HeaderInfo {
            hash: spec_header_digest(data@),
            prev_hash: spec_hash_from_bytes(data@, 4),
            time: le32_at(data@, 68) as u32,
        }),
{
    let h: bitcoin::block::Header = deserialize(data.as_slice()).ok()?;
    Some(
        HeaderInfo {
            hash: hash_from_array(&h.block_hash().to_byte_array()),
            prev_hash: hash_from_array(&h.prev_blockhash.to_byte_array()),
            time: h.time,
        },
    )
}

/// Relies on `bitcoin::consensus::deserialize::<Block>` — a function of the
/// input bytes alone, as are the `compute_txid` digest, the BIP-141 weight,
/// and the data-carrier script test read off the decoded transactions. A
/// serialized block starts with its 80-byte header, so a block that decodes
/// carries its header's timestamp at bytes 68..72.
#[verifier::external_body]
fn decode_block_bytes(data: &Vec<u8>) -> (r: Option<BlockSummary>)
    ensures
        r == spec_parsed_block(data@),
        r is Some ==> data@.len() >= 80,
        r matches Some(b) ==> b.time == le32_at(data@, 68),
{
    let b: bitcoin::Block = deserialize(data.as_slice()).ok()?;
    let txs = b.txdata.iter().map(|t| TxSummary {
        txid: hash_from_array(&t.compute_txid().to_byte_array()),
        weight: t.weight().to_wu(),
        inputs: t.input.iter().map(
            |i| TxInSummary { prev_txid: hash_from_array(&i.previous_output.txid.to_byte_array()), prev_vout: i.previous_output.vout },
        ).collect(),
        outputs: t.output.iter().map(
            |o| TxOutSummary { value_sats: o.value.to_sat(), is_op_return: o.script_pubkey.is_op_return(), script_len: o.script_pubkey.len() as u64 },
        ).collect(),
    }).collect();
    Some(BlockSummary { time: b.header.time, txs })
}

/// A container positioned at an absolute byte offset, with the eight-byte
/// XOR key its records are masked with; the all-zero key means no masking.
pub struct ContainerReader {
    /// The container's bytes.
    pub data: Vec<u8>,
    /// The current absolute offset; never beyond the container's end.
    pub pos: usize,
    /// The repeating XOR key.
    pub xor_key: [u8; 8],
}

/// The outcome a header-only read owes at offset `p`: no record when fewer
/// than eight bytes remain or the raw prefix is zero padding, an error on a
/// wrong magic or a payload that is short or runs past the stream, and
/// otherwise the decoded header with the record's offset and payload length.
pub open spec fn spec_read_header_outcome(d: Seq<u8>, k: Seq<u8>, p: int) -> Result<
    Option<(HeaderInfo, u64, u32)>,
    CodecError,
> {
    if p + 8 > d.len() {
        Ok(None)
    } else if spec_zero_prefix(d, p) {
        Ok(None)
    } else if !spec_magic_ok(d, k, p) {
        Err(CodecError::BadMagic)
    } else {
        let size = spec_payload_len(d, k, p);
        if size < 80 || p + 8 + 80 > d.len() {
            Err(CodecError::TruncatedPayload)
        } else {
            let hdr = spec_unmasked_range(d, k, p + 8, 80);
            let h = HeaderInfo {
                hash: spec_header_digest(hdr),
                prev_hash: spec_hash_from_bytes(hdr, 4),
                time: le32_at(hdr, 68) as u32,
            };
            Ok(Some((h, p as u64, size as u32)))
        }
    }
}

/// Where a header-only read leaves the stream: past the whole record on
/// success — clamped to the container's end, which a later read reports as
/// end-of-stream — and where it stood otherwise.
pub open spec fn spec_read_header_next_pos(d: Seq<u8>, k: Seq<u8>, p: int) -> int {
    match spec_read_header_outcome(d, k, p) {
        Ok(Some((h, off, size))) => if p + 8 + size > d.len() {
            d.len() as int
        } else {
            p + 8 + size
        },
        _ => p,
    }
}

impl ContainerReader {
    /// Opens a reader over a container's bytes with the given XOR key,
    /// positioned at the start.
    pub fn new_with_xor_key(data: Vec<u8>, xor_key: [u8; 8]) -> (r: ContainerReader)
        ensures
            r.data@ == data@,
            r.xor_key@ == xor_key@,
            r.pos == 0,
    {
        ContainerReader { data, pos: 0, xor_key }
    }

    /// Repositions the reader at an absolute offset for random access by
    /// location; an offset past the end behaves as end-of-stream.
    pub fn seek_to_offset(&mut self, offset: u64)
        ensures
            final(self).data@ == old(self).data@,
            final(self).xor_key@ == old(self).xor_key@,
            final(self).pos == if offset <= old(self).data@.len() {
                offset as int
            } else {
                old(self).data@.len() as int
            },
    {
        let len = self.data.len();
        if offset <= len as u64 {
            self.pos = offset as usize;
        } else {
            self.pos = len;
        }
    }

    /// Unmasks `len` container bytes starting at `from`, with the key phase
    /// the absolute offset dictates.
    fn unmask_range(&self, from: usize, len: usize) -> (r: Vec<u8>)
        requires
            from + len <= self.data.len(),
        ensures
            r@ == spec_unmasked_range(self.data@, self.xor_key@, from as int, len as int),
    {
        proof {
            reveal(spec_unmasked_range);
        }
        let mut out: Vec<u8> = Vec::new();
        let mut i: usize = 0;
        while i < len
            invariant
                i <= len,
                from + len <= self.data.len(),
                out@ =~= spec_unmasked_range(
                    self.data@,
                    self.xor_key@,
                    from as int,
                    i as int,
                ),
            decreases len - i,
        {
            let kb = self.xor_key[(from + i) % 8];
            out.push(self.data[from + i] ^ kb);
            proof {
                reveal(spec_unmasked_range);
                assert(out@ =~= spec_unmasked_range(
                    self.data@,
                    self.xor_key@,
                    from as int,
                    i + 1,
                ));
            }
            i = i + 1;
        }
        out
    }

    /// Reads the next record's header only: decodes the eight-byte prefix,
    /// unmasks and deserializes the fixed 80-byte header region, and skips
    /// the rest of the payload without reading it. Returns the decoded
    /// header with the record's absolute offset and payload length, or
    /// `None` at end-of-stream or on trailing zero padding.
    #[verifier::rlimit(100)]
    #[verifier::spinoff_prover]
    pub fn read_next_header(&mut self) -> (r: Result<Option<(HeaderInfo, u64, u32)>, CodecError>)
        requires
            old(self).pos <= old(self).data.len(),
        ensures
            final(self).data@ == old(self).data@,
            final(self).xor_key@ == old(self).xor_key@,
            r == spec_read_header_outcome(
                old(self).data@,
                old(self).xor_key@,
                old(self).pos as int,
            ),
            final(self).pos == spec_read_header_next_pos(
                old(self).data@,
                old(self).xor_key@,
                old(self).pos as int,
            ),
            final(self).pos <= final(self).data@.len(),
    {
        proof {
            reveal(spec_unmasked_range);
            reveal(spec_zero_prefix);
        }
        let ghost d = self.data@;
        let ghost k = self.xor_key@;
        let p = self.pos;
        let len = self.data.len();
        if len - p < 8 {
            proof {
                assert(spec_read_header_outcome(d, k, p as int) == Ok::<
                    Option<(HeaderInfo, u64, u32)>,
                    CodecError,
                >(None));
            }
            return Ok(None);
        }
        let mut all_zero = true;
        let mut i: usize = 0;
        while i < 8
            invariant
                i <= 8,
                p + 8 <= self.data.len(),
                d == self.data@,
                all_zero == (forall|j: int| p <= j < p + i ==> self.data@[j] == 0),
            decreases 8 - i,
        {
            if self.data[p + i] != 0 {
                all_zero = false;
            }
            i = i + 1;
        }
        proof {
            assert(all_zero == spec_zero_prefix(d, p as int));
        }
        if all_zero {
            return Ok(None);
        }
        let prefix = self.unmask_range(p, 8);
        proof {
            assert(prefix@[0] == spec_unmasked_byte(d, k, p as int));
            assert(prefix@[1] == spec_unmasked_byte(d, k, p + 1));
            assert(prefix@[2] == spec_unmasked_byte(d, k, p + 2));
            assert(prefix@[3] == spec_unmasked_byte(d, k, p + 3));
        }
        if !(prefix[0] == 0xf9 && prefix[1] == 0xbe && prefix[2] == 0xb4 && prefix[3] == 0xd9) {
            proof {
                assert(!spec_magic_ok(d, k, p as int));
            }
            return Err(CodecError::BadMagic);
        }
        proof {
            assert(spec_magic_ok(d, k, p as int));
        }
        let size = crate::hash::read_le32(&prefix, 4);
        proof {
            assert(spec_unmasked_range(d, k, p + 4, 4) =~= prefix@.subrange(4, 8));
            assert(size == spec_payload_len(d, k, p as int));
        }
        if size < 80 || len - p < 88 {
            return Err(CodecError::TruncatedPayload);
        }
        let header_bytes = self.unmask_range(p + 8, 80);
        let header = match decode_header_bytes(&header_bytes) {
            Some(h) => h,
            None => {
                proof {
                    assert(false);
                }
                return Err(CodecError::TruncatedPayload);
            },
        };
        let next = p as u128 + 8 + size as u128;
        if next > len as u128 {
            self.pos = len;
        } else {
            self.pos = next as usize;
        }
        proof {
            let outcome = spec_read_header_outcome(d, k, p as int);
            let hdr = spec_unmasked_range(d, k, p + 8, 80);
            assert(header_bytes@ == hdr);
            assert(header == (HeaderInfo {
                hash: spec_header_digest(hdr),
                prev_hash: spec_hash_from_bytes(hdr, 4),
                time: le32_at(hdr, 68) as u32,
            }));
            assert(outcome == Ok::<Option<(HeaderInfo, u64, u32)>, CodecError>(
                Some((header, p as u64, size)),
            ));
        }
        Ok(Some((header, p as u64, size)))
    }

    /// Reads the next record as a complete block: decodes the eight-byte
    /// prefix, unmasks the whole payload and deserializes it. Unlike the
    /// header-only read, a zero prefix is not treated as padding here: a
    /// full-block read expects a record at the current offset.
    #[verifier::rlimit(100)]
    #[verifier::spinoff_prover]
    pub fn read_next_block(&mut self) -> (r: Result<Option<(BlockSummary, u64)>, CodecError>)
        requires
            old(self).pos <= old(self).data.len(),
        ensures
            final(self).data@ == old(self).data@,
            final(self).xor_key@ == old(self).xor_key@,
            r == spec_read_block_outcome(
                old(self).data@,
                old(self).xor_key@,
                old(self).pos as int,
            ),
            final(self).pos == spec_read_block_next_pos(
                old(self).data@,
                old(self).xor_key@,
                old(self).pos as int,
            ),
            final(self).pos <= final(self).data@.len(),
    {
        proof {
            reveal(spec_unmasked_range);
        }
        let ghost d = self.data@;
        let ghost k = self.xor_key@;
        let p = self.pos;
        let len = self.data.len();
        if len - p < 8 {
            return Ok(None);
        }
        let prefix = self.unmask_range(p, 8);
        proof {
            assert(prefix@[0] == spec_unmasked_byte(d, k, p as int));
            assert(prefix@[1] == spec_unmasked_byte(d, k, p + 1));
            assert(prefix@[2] == spec_unmasked_byte(d, k, p + 2));
            assert(prefix@[3] == spec_unmasked_byte(d, k, p + 3));
        }
        if !(prefix[0] == 0xf9 && prefix[1] == 0xbe && prefix[2] == 0xb4 && prefix[3] == 0xd9) {
            proof {
                assert(!spec_magic_ok(d, k, p as int));
            }
            return Err(CodecError::BadMagic);
        }
        let size = crate::hash::read_le32(&prefix, 4);
        proof {
            assert(spec_unmasked_range(d, k, p + 4, 4) =~= prefix@.subrange(4, 8));
            assert(size == spec_payload_len(d, k, p as int));
        }
        let avail: usize = len - p - 8;
        if (avail as u64) < (size as u64) {
            return Err(CodecError::TruncatedPayload);
        }
        let payload = self.unmask_range(p + 8, size as usize);
        let summary = match decode_block_bytes(&payload) {
            Some(b) => b,
            None => {
                return Err(CodecError::BlockDecode);
            },
        };
        self.pos = p + 8 + size as usize;
        Ok(Some((summary, p as u64)))
    }

    /// Scans forward from the current offset, decoding headers only, until
    /// a clean end of stream; any malformed record aborts the whole scan.
    #[verifier::rlimit(100)]
    #[verifier::spinoff_prover]
    pub fn scan_headers(&mut self) -> (r: Result<Vec<(HeaderInfo, u64, u32)>, CodecError>)
        requires
            old(self).pos <= old(self).data.len(),
        ensures
            final(self).data@ == old(self).data@,
            final(self).xor_key@ == old(self).xor_key@,
            final(self).pos <= final(self).data@.len(),
            spec_scan_headers(old(self).data@, old(self).xor_key@, old(self).pos as int) == (
            match r {
                Ok(v) => Ok(v@),
                Err(e) => Err(e),
            }),
    {
        let ghost d = self.data@;
        let ghost k = self.xor_key@;
        let ghost p0 = self.pos as int;
        let mut out: Vec<(HeaderInfo, u64, u32)> = Vec::new();
        loop
            invariant
                self.pos <= self.data.len(),
                self.data@ == d,
                self.xor_key@ == k,
                d == old(self).data@,
                k == old(self).xor_key@,
                p0 == old(self).pos as int,
                spec_scan_headers(d, k, p0) == (match spec_scan_headers(
                    d,
                    k,
                    self.pos as int,
                ) {
                    Ok(rest) => Ok(out@ + rest),
                    Err(e) => Err::<Seq<(HeaderInfo, u64, u32)>, CodecError>(e),
                }),
            decreases d.len() - self.pos,
        {
            let ghost p_before = self.pos as int;
            match self.read_next_header() {
                Err(e) => {
                    proof {
                        assert(spec_read_header_outcome(d, k, p_before) == Err::<
                            Option<(HeaderInfo, u64, u32)>,
                            CodecError,
                        >(e));
                        assert(spec_scan_headers(d, k, p_before) == Err::<
                            Seq<(HeaderInfo, u64, u32)>,
                            CodecError,
                        >(e));
                    }
                    return Err(e);
                },
                Ok(None) => {
                    proof {
                        assert(spec_scan_headers(d, k, p_before) == Ok::<
                            Seq<(HeaderInfo, u64, u32)>,
                            CodecError,
                        >(Seq::empty()));
                        assert(out@ + Seq::<(HeaderInfo, u64, u32)>::empty() =~= out@);
                    }
                    return Ok(out);
                },
                Ok(Some(t)) => {
                    proof {
                        let p2 = spec_read_header_next_pos(d, k, p_before);
                        assert(self.pos == p2);
                        assert(spec_scan_headers(d, k, p_before) == (match spec_scan_headers(
                            d,
                            k,
                            p2,
                        ) {
                            Ok(rest) => Ok(seq![t] + rest),
                            Err(e) => Err::<Seq<(HeaderInfo, u64, u32)>, CodecError>(e),
                        }));
                        if spec_scan_headers(d, k, p2) is Ok {
                            let rest = spec_scan_headers(d, k, p2)->Ok_0;
                            assert(out@ + (seq![t] + rest) =~= out@.push(t) + rest);
                        }
                    }
                    out.push(t);
                },
            }
        }
    }
}

/// The outcome a full-block read owes at offset `p`: no record when fewer
/// than eight bytes remain, an error on a wrong magic, on a payload running
/// past the stream, or on payload bytes that do not deserialize as a block,
/// and otherwise the decoded block with the record's absolute offset.
pub open spec fn spec_read_block_outcome(d: Seq<u8>, k: Seq<u8>, p: int) -> Result<
    Option<(BlockSummary, u64)>,
    CodecError,
> {
    if p + 8 > d.len() {
        Ok(None)
    } else if !spec_magic_ok(d, k, p) {
        Err(CodecError::BadMagic)
    } else {
        let size = spec_payload_len(d, k, p);
        if p + 8 + size > d.len() {
            Err(CodecError::TruncatedPayload)
        } else {
            match spec_parsed_block(spec_unmasked_range(d, k, p + 8, size)) {
                Some(b) => Ok(Some((b, p as u64))),
                None => Err(CodecError::BlockDecode),
            }
        }
    }
}

/// Where a full-block read leaves the stream: past the record it decoded,
/// and where it stood otherwise.
pub open spec fn spec_read_block_next_pos(d: Seq<u8>, k: Seq<u8>, p: int) -> int {
    match spec_read_block_outcome(d, k, p) {
        Ok(Some(t)) => p + 8 + spec_payload_len(d, k, p),
        _ => p,
    }
}

/// Byte `j` of the little-endian spelling of `n`.
pub open spec fn spec_le_byte(n: int, j: int) -> u8 {
    if j == 0 {
        (n % 256) as u8
    } else if j == 1 {
        ((n / 256) % 256) as u8
    } else if j == 2 {
        ((n / 65536) % 256) as u8
    } else {
        ((n / 16777216) % 256) as u8
    }
}

/// Byte `i` of a record for `payload` before masking: the four magic bytes,
/// the four little-endian length bytes, then the payload.
pub open spec fn spec_record_plain_byte(payload: Seq<u8>, i: int) -> u8 {
    if i == 0 {
        0xf9u8
    } else if i == 1 {
        0xbeu8
    } else if i == 2 {
        0xb4u8
    } else if i == 3 {
        0xd9u8
    } else if i < 8 {
        spec_le_byte(payload.len() as int, i - 4)
    } else {
        payload[i - 8]
    }
}

/// The on-stream bytes of a record holding `payload`, masked for absolute
/// offset `p`.
pub open spec fn spec_encode_record(payload: Seq<u8>, key: Seq<u8>, p: int) -> Seq<u8> {
    Seq::new(
        (8 + payload.len()) as nat,
        |i: int| spec_record_plain_byte(payload, i) ^ spec_stream_key_byte(key, p + i),
    )
}

/// Encodes one container record: the magic constant, the payload's length
/// little-endian, and the payload, every byte masked with the phase its
/// absolute offset would have on the stream.
pub fn encode_record(payload: &Vec<u8>, xor_key: &[u8; 8], offset: u64) -> (r: Vec<u8>)
    requires
        payload@.len() <= 0xffff_ffff,
        offset + 8 + payload@.len() <= 0xffff_ffff_ffff_ffff,
    ensures
        r@ == spec_encode_record(payload@, xor_key@, offset as int),
{
    let len = payload.len() as u32;
    let mut out: Vec<u8> = Vec::new();
    let plain: [u8; 8] = [
        0xf9,
        0xbe,
        0xb4,
        0xd9,
        (len % 256) as u8,
        ((len / 256) % 256) as u8,
        ((len / 65536) % 256) as u8,
        ((len / 16777216) % 256) as u8,
    ];
    let mut i: usize = 0;
    while i < 8
        invariant
            i <= 8,
            payload@.len() <= 0xffff_ffff,
            offset + 8 + payload@.len() <= 0xffff_ffff_ffff_ffff,
            len == payload@.len(),
            plain@ =~= Seq::new(8, |j: int| spec_record_plain_byte(payload@, j)),
            out@ =~= spec_encode_record(payload@, xor_key@, offset as int).take(i as int),
        decreases 8 - i,
    {
        let kb = xor_key[((offset + i as u64) % 8) as usize];
        out.push(plain[i] ^ kb);
        proof {
            assert((offset + i as u64) % 8 == (offset as int + i as int) % 8);
            assert(out@ =~= spec_encode_record(payload@, xor_key@, offset as int).take(i + 1));
        }
        i = i + 1;
    }
    let mut j: usize = 0;
    while j < payload.len()
        invariant
            j <= payload@.len(),
            payload@.len() <= 0xffff_ffff,
            offset + 8 + payload@.len() <= 0xffff_ffff_ffff_ffff,
            out@ =~= spec_encode_record(payload@, xor_key@, offset as int).take(8 + j),
        decreases payload@.len() - j,
    {
        let kb = xor_key[((offset + 8 + j as u64) % 8) as usize];
        out.push(payload[j] ^ kb);
        proof {
            assert((offset + 8 + j as u64) % 8 == (offset as int + (8 + j as int)) % 8);
            assert(out@ =~= spec_encode_record(payload@, xor_key@, offset as int).take(
                8 + j + 1,
            ));
        }
        j = j + 1;
    }
    proof {
        assert(spec_encode_record(payload@, xor_key@, offset as int).take(
            8 + payload@.len() as int,
        ) =~= spec_encode_record(payload@, xor_key@, offset as int));
    }
    out
}

proof fn lemma_xor_involution(x: u8, y: u8)
    ensures
        (x ^ y) ^ y == x,
{
    assert((x ^ y) ^ y == x) by (bit_vector);
}

proof fn lemma_le32_bytes(b0: u8, b1: u8, b2: u8, b3: u8)
    ensures
        spec_le_byte(b0 + b1 * 0x100 + b2 * 0x1_0000 + b3 * 0x100_0000, 0) == b0,
        spec_le_byte(b0 + b1 * 0x100 + b2 * 0x1_0000 + b3 * 0x100_0000, 1) == b1,
        spec_le_byte(b0 + b1 * 0x100 + b2 * 0x1_0000 + b3 * 0x100_0000, 2) == b2,
        spec_le_byte(b0 + b1 * 0x100 + b2 * 0x1_0000 + b3 * 0x100_0000, 3) == b3,
{
    let n: u32 = ((b0 as int) + (b1 as int) * 0x100 + (b2 as int) * 0x1_0000 + (b3 as int)
        * 0x100_0000) as u32;
    assert(n % 256 == b0 as u32 && (n / 256) % 256 == b1 as u32 && (n / 65536) % 256 == b2 as u32
        && (n / 16777216) % 256 == b3 as u32) by (bit_vector)
        requires
            n == (b0 as u32) + (b1 as u32) * 0x100 + (b2 as u32) * 0x1_0000 + (b3 as u32)
                * 0x100_0000,
    ;
}

/// Decoding and re-encoding reproduce a container record exactly: the bytes
/// a record's unmasked payload re-encodes to, with the same key at the same
/// absolute offset, are the record's original on-stream bytes.
pub proof fn lemma_record_round_trip(d: Seq<u8>, k: Seq<u8>, p: int)
    requires
        k.len() == 8,
        0 <= p,
        p + 8 <= d.len(),
        spec_magic_ok(d, k, p),
        p + 8 + spec_payload_len(d, k, p) <= d.len(),
    ensures
        spec_encode_record(
            spec_unmasked_range(d, k, p + 8, spec_payload_len(d, k, p)),
            k,
            p,
        ) =~= d.subrange(p, p + 8 + spec_payload_len(d, k, p)),
{
    reveal(spec_unmasked_range);
    let size = spec_payload_len(d, k, p);
    let payload = spec_unmasked_range(d, k, p + 8, size);
    let enc = spec_encode_record(payload, k, p);
    let target = d.subrange(p, p + 8 + size);
    assert(payload.len() == size);
    assert forall|i: int| 0 <= i < enc.len() implies enc[i] == target[i] by {
        let kb = spec_stream_key_byte(k, p + i);
        if i < 4 {
            lemma_xor_involution(d[p + i], kb);
        } else if i < 8 {
            let b0 = spec_unmasked_byte(d, k, p + 4);
            let b1 = spec_unmasked_byte(d, k, p + 5);
            let b2 = spec_unmasked_byte(d, k, p + 6);
            let b3 = spec_unmasked_byte(d, k, p + 7);
            assert(spec_unmasked_range(d, k, p + 4, 4) =~= seq![b0, b1, b2, b3]);
            assert(size == b0 + b1 * 0x100 + b2 * 0x1_0000 + b3 * 0x100_0000);
            lemma_le32_bytes(b0, b1, b2, b3);
            assert(spec_record_plain_byte(payload, i) == spec_unmasked_byte(d, k, p + i));
            lemma_xor_involution(d[p + i], kb);
        } else {
            assert(payload[i - 8] == spec_unmasked_byte(d, k, p + i));
            lemma_xor_involution(d[p + i], kb);
        }
    }
}

/// Every well-formed record from offset `p` to the end of the stream, as a
/// header-only scan discovers them: empty at a clean end of stream, and an
/// error as soon as one record is malformed.
pub open spec fn spec_scan_headers(d: Seq<u8>, k: Seq<u8>, p: int) -> Result<
    Seq<(HeaderInfo, u64, u32)>,
    CodecError,
>
    decreases d.len() - p,
    when 0 <= p <= d.len()
{
    match spec_read_header_outcome(d, k, p) {
        Err(e) => Err(e),
        Ok(None) => Ok(Seq::empty()),
        Ok(Some(t)) => {
            let p2 = spec_read_header_next_pos(d, k, p);
            match spec_scan_headers(d, k, p2) {
                Ok(rest) => Ok(seq![t] + rest),
                Err(e) => Err(e),
            }
        },
    }
}

/// Copies `len` bytes of `data` from `from`.
fn copy_range(data: &Vec<u8>, from: usize, len: usize) -> (r: Vec<u8>)
    requires
        from + len <= data.len(),
    ensures
        r@ == data@.subrange(from as int, from + len),
{
    let mut out: Vec<u8> = Vec::new();
    let mut i: usize = 0;
    while i < len
        invariant
            i <= len,
            from + len <= data.len(),
            out@ =~= data@.subrange(from as int, from + i),
        decreases len - i,
    {
        out.push(data[from + i]);
        proof {
            assert(out@ =~= data@.subrange(from as int, from + i + 1));
        }
        i = i + 1;
    }
    out
}

/// Every block a resynchronising scan finds from offset `p`: a record needs
/// the raw magic word and a payload of at most 32 MiB that deserializes as
/// a block; at anything else the scan advances a single byte and tries
/// again, and it stops quietly when fewer bytes remain than a record head
/// or a promised payload.
pub open spec fn spec_resync_scan(d: Seq<u8>, p: int) -> Seq<BlockSummary>
    decreases d.len() - p,
    when 0 <= p <= d.len()
{
    if p + 8 > d.len() {
        Seq::empty()
    } else if le32_at(d, p) != 0xD9B4BEF9 {
        spec_resync_scan(d, p + 1)
    } else {
        let size = le32_at(d, p + 4);
        if size > 33554432 {
            spec_resync_scan(d, p + 1)
        } else if p + 8 + size > d.len() {
            Seq::empty()
        } else {
            match spec_parsed_block(d.subrange(p + 8, p + 8 + size)) {
                Some(b) => seq![b] + spec_resync_scan(d, p + 8 + size),
                None => spec_resync_scan(d, p + 1),
            }
        }
    }
}

/// Scans a raw, unmasked container for blocks, resynchronising byte by
/// byte past anything that does not decode; unlike the header scan, a
/// malformed stretch is skipped, not fatal.
#[verifier::rlimit(100)]
#[verifier::spinoff_prover]
pub fn scan_blocks_resync(data: &Vec<u8>) -> (r: Vec<BlockSummary>)
    ensures
        r@ == spec_resync_scan(data@, 0),
{
    let ghost d = data@;
    let mut out: Vec<BlockSummary> = Vec::new();
    let mut pos: usize = 0;
    proof {
        assert(out@ + spec_resync_scan(d, 0) =~= spec_resync_scan(d, 0));
    }
    loop
        invariant
            pos <= data.len(),
            d == data@,
            spec_resync_scan(d, 0) =~= out@ + spec_resync_scan(d, pos as int),
        decreases d.len() - pos,
    {
        let len = data.len();
        if len - pos < 8 {
            proof {
                assert(spec_resync_scan(d, pos as int) =~= Seq::<BlockSummary>::empty());
                assert(out@ + Seq::<BlockSummary>::empty() =~= out@);
            }
            return out;
        }
        let magic = crate::hash::read_le32(data, pos);
        if magic != 0xD9B4_BEF9 {
            pos = pos + 1;
            continue ;
        }
        let size = crate::hash::read_le32(data, pos + 4);
        if size > 33554432 {
            pos = pos + 1;
            continue ;
        }
        if len - pos - 8 < size as usize {
            proof {
                assert(spec_resync_scan(d, pos as int) =~= Seq::<BlockSummary>::empty());
                assert(out@ + Seq::<BlockSummary>::empty() =~= out@);
            }
            return out;
        }
        let payload = copy_range(data, pos + 8, size as usize);
        match decode_block_bytes(&payload) {
            Some(b) => {
                let ghost out_pre = out@;
                out.push(b);
                proof {
                    let rest = spec_resync_scan(d, pos + 8 + size);
                    assert(spec_resync_scan(d, pos as int) =~= seq![out@.last()] + rest);
                    assert(out_pre + (seq![out@.last()] + rest) =~= out@ + rest);
                }
                pos = pos + 8 + size as usize;
            },
            None => {
                pos = pos + 1;
            },
        }
    }
}


} // verus!
