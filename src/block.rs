//! The block codec: frames a payload of at most one block's worth of bytes
//! into an independently decompressible gzip member with a `BC` extra
//! subfield that records the member's total size, and unframes it again.

use vstd::prelude::*;
use vstd::slice::slice_subrange;

verus! {

/// Size of the fixed block header, up to and including the block-size field.
pub const HEADER_LEN: usize = 18;

/// Size of the trailer: checksum and uncompressed size.
pub const TRAILER_LEN: usize = 8;

/// Largest total size of one framed block.
pub const MAX_BLOCK_LEN: usize = 65536;

/// Largest payload a block may carry once decompressed.
pub const MAX_UNCOMPRESSED_LEN: usize = 65536;

/// Largest payload the encoder accepts, leaving room for the framing of data
/// that does not compress.
pub const MAX_ENCODE_LEN: usize = 65280;

/// What DEFLATE compression turns a byte sequence into.
pub uninterp spec fn deflate_of(data: Seq<u8>) -> Seq<u8>;

/// What raw DEFLATE decompression of a byte sequence gives, or `None` where
/// the decoder reports the data corrupt.
pub uninterp spec fn inflate_of(data: Seq<u8>) -> Option<Seq<u8>>;

/// The CRC-32 checksum of a byte sequence.
pub uninterp spec fn crc32_of(data: Seq<u8>) -> u32;

/// Relies on flate2's raw DEFLATE encoder (`flate2::read::DeflateEncoder`) at
/// the default level: reading it over a slice to the end does not fail, the
/// output depends on the input alone, and the matching decoder gives the
/// input back.
#[verifier::external_body]
fn deflate(data: &[u8]) -> (r: Option<Vec<u8>>)
    ensures
        r is Some,
        r matches Some(c) ==> c@ == deflate_of(data@) && inflate_of(c@) == Some(data@),
{
    let mut out = Vec::new();
    let mut encoder = flate2::read::DeflateEncoder::new(data, flate2::Compression::default());
    match std::io::Read::read_to_end(&mut encoder, &mut out) {
        Ok(_) => Some(out),
        Err(_) => None,
    }
}

/// Relies on flate2's raw DEFLATE decoder (`flate2::read::DeflateDecoder`),
/// read to the end: what it gives, or whether it reports the data corrupt,
/// depends on the input alone.
#[verifier::external_body]
fn inflate(data: &[u8]) -> (r: Option<Vec<u8>>)
    ensures
        r is Some <==> inflate_of(data@) is Some,
        r matches Some(d) ==> inflate_of(data@) == Some(d@),
{
    let mut out = Vec::new();
    let mut decoder = flate2::read::DeflateDecoder::new(data);
    match std::io::Read::read_to_end(&mut decoder, &mut out) {
        Ok(_) => Some(out),
        Err(_) => None,
    }
}

/// Relies on `crc32fast::hash`, the CRC-32 (IEEE) checksum of the bytes.
#[verifier::external_body]
fn crc32(data: &[u8]) -> (r: u32)
    ensures
        r == crc32_of(data@),
{
    crc32fast::hash(data)
}

/// The bytes of a block header before the block-size field.
pub open spec fn header_prefix() -> Seq<u8> {
    seq![0x1fu8, 0x8bu8, 0x08u8, 0x04u8, 0u8, 0u8, 0u8, 0u8, 0u8, 0xffu8, 0x06u8, 0u8, 0x42u8, 0x43u8, 0x02u8, 0u8]
}

/// Little-endian encoding of a 16-bit value.
pub open spec fn le16_bytes(x: nat) -> Seq<u8> {
    seq![(x % 256) as u8, ((x / 256) % 256) as u8]
}

/// Little-endian encoding of a 32-bit value.
pub open spec fn le32_bytes(x: nat) -> Seq<u8> {
    seq![
        (x % 256) as u8,
        ((x / 256) % 256) as u8,
        ((x / 65536) % 256) as u8,
        ((x / 16777216) % 256) as u8,
    ]
}

/// Little-endian encoding of a 64-bit value.
pub open spec fn le64_bytes(x: nat) -> Seq<u8> {
    le32_bytes(x % 0x1_0000_0000) + le32_bytes(x / 0x1_0000_0000)
}

/// The 16-bit little-endian value stored at `i`.
pub open spec fn le16_at(s: Seq<u8>, i: int) -> nat {
    (s[i] + 256 * s[i + 1]) as nat
}

/// The 32-bit little-endian value stored at `i`.
pub open spec fn le32_at(s: Seq<u8>, i: int) -> nat {
    (s[i] + 256 * s[i + 1] + 65536 * s[i + 2] + 16777216 * s[i + 3]) as nat
}

/// The framed block that carries `cdata`, the compressed form of a payload
/// with checksum `crc` and length `ulen`.
pub open spec fn frame(cdata: Seq<u8>, crc: u32, ulen: nat) -> Seq<u8> {
    header_prefix() + le16_bytes((cdata.len() + HEADER_LEN + TRAILER_LEN - 1) as nat) + cdata
        + le32_bytes(crc as nat) + le32_bytes(ulen)
}

/// The block that encoding `data` produces.
pub open spec fn encoded(data: Seq<u8>) -> Seq<u8> {
    frame(deflate_of(data), crc32_of(data), data.len())
}

/// Why a block could not be encoded or decoded.
#[derive(Clone, Copy, Debug, PartialEq, Eq, Structural)]
pub enum BlockError {
    /// The payload is larger than one block may carry.
    InputTooLarge,
    /// The compressor failed or its output does not fit in one block.
    CompressionFailed,
    /// The input ends before the block does.
    Truncated,
    /// The fixed header fields or the block size are not those of a block.
    InvalidHeader,
    /// The compressed payload is not a valid compressed stream.
    InvalidData,
    /// The decompressed payload's length differs from the declared one.
    SizeMismatch,
    /// The decompressed payload's checksum differs from the declared one.
    ChecksumMismatch,
}

/// Whether the fixed header fields of `b` are those of a block: the gzip
/// magic, DEFLATE, the extra-field flag and a single `BC` subfield.
pub open spec fn header_ok(b: Seq<u8>) -> bool {
    &&& b[0] == 0x1f
    &&& b[1] == 0x8b
    &&& b[2] == 0x08
    &&& b[3] == 0x04
    &&& b[10] == 0x06
    &&& b[11] == 0
    &&& b[12] == 0x42
    &&& b[13] == 0x43
    &&& b[14] == 0x02
    &&& b[15] == 0
}

/// The total length of the block that starts `b`, as its header declares it.
pub open spec fn declared_len(b: Seq<u8>) -> nat {
    le16_at(b, 16) + 1
}

/// Decoding of the block at the start of `b`: its decompressed payload and
/// the number of bytes it occupies, or the reason it is not a valid block.
pub open spec fn decode_spec(b: Seq<u8>) -> Result<(Seq<u8>, nat), BlockError> {
    if b.len() < HEADER_LEN {
        Err(BlockError::Truncated)
    } else if !header_ok(b) || declared_len(b) < HEADER_LEN + TRAILER_LEN {
        Err(BlockError::InvalidHeader)
    } else if b.len() < declared_len(b) {
        Err(BlockError::Truncated)
    } else {
        let n = declared_len(b) as int;
        let cdata = b.subrange(HEADER_LEN as int, n - TRAILER_LEN);
        let crc = le32_at(b, n - 8);
        let ulen = le32_at(b, n - 4);
        match inflate_of(cdata) {
            None => Err(BlockError::InvalidData),
            Some(d) => if d.len() != ulen || ulen > MAX_UNCOMPRESSED_LEN {
                Err(BlockError::SizeMismatch)
            } else if crc32_of(d) != crc {
                Err(BlockError::ChecksumMismatch)
            } else {
                Ok((d, n as nat))
            },
        }
    }
}

/// A decoded block: its decompressed payload and its size in the stream.
#[derive(Debug)]
pub struct DecodedBlock {
    pub data: Vec<u8>,
    pub len: usize,
}

impl DecodedBlock {
    /// Whether this block is an end-of-file marker, a block with no payload.
    pub fn is_eof(&self) -> (r: bool)
        ensures
            r <==> self.data@.len() == 0,
    {
        self.data.len() == 0
    }
}

proof fn lemma_le16_roundtrip(x: nat)
    requires
        x < 65536,
    ensures
        le16_at(le16_bytes(x), 0) == x,
{
    let s = le16_bytes(x);
    assert(s[0] == x % 256);
    assert(s[1] == (x / 256) % 256);
    assert(x % 256 + 256 * ((x / 256) % 256) == x) by (nonlinear_arith)
        requires
            x < 65536,
    ;
}

pub(crate) proof fn lemma_le32_roundtrip(x: nat)
    requires
        x < 0x1_0000_0000,
    ensures
        le32_at(le32_bytes(x), 0) == x,
{
    let s = le32_bytes(x);
    assert(s[0] == x % 256);
    assert(s[1] == (x / 256) % 256);
    assert(s[2] == (x / 65536) % 256);
    assert(s[3] == (x / 16777216) % 256);
    assert(x % 256 + 256 * ((x / 256) % 256) + 65536 * ((x / 65536) % 256) + 16777216 * ((x
        / 16777216) % 256) == x) by (nonlinear_arith)
        requires
            x < 0x1_0000_0000,
    ;
}

/// Writes `x` as two little-endian bytes.
fn push_le16(out: &mut Vec<u8>, x: u16)
    ensures
        final(out)@ == old(out)@ + le16_bytes(x as nat),
{
    let lo = (x & 0xff) as u8;
    let hi = (x >> 8u16) as u8;
    assert(x & 0xff == x % 256) by (bit_vector);
    assert(x >> 8u16 == x / 256) by (bit_vector);
    out.push(lo);
    out.push(hi);
    assert(out@ =~= old(out)@ + le16_bytes(x as nat));
}

/// Writes `x` as four little-endian bytes.
pub(crate) fn push_le32(out: &mut Vec<u8>, x: u32)
    ensures
        final(out)@ == old(out)@ + le32_bytes(x as nat),
{
    assert(x & 0xff == x % 256) by (bit_vector);
    assert((x >> 8u32) & 0xff == (x / 256) % 256) by (bit_vector);
    assert((x >> 16u32) & 0xff == (x / 65536) % 256) by (bit_vector);
    assert((x >> 24u32) & 0xff == (x / 16777216) % 256) by (bit_vector);
    out.push((x & 0xff) as u8);
    out.push(((x >> 8u32) & 0xff) as u8);
    out.push(((x >> 16u32) & 0xff) as u8);
    out.push(((x >> 24u32) & 0xff) as u8);
    assert(out@ =~= old(out)@ + le32_bytes(x as nat));
}

/// Writes `x` as eight little-endian bytes.
pub(crate) fn push_le64(out: &mut Vec<u8>, x: u64)
    ensures
        final(out)@ == old(out)@ + le64_bytes(x as nat),
{
    let lo = (x & 0xffff_ffff) as u32;
    let hi = (x >> 32u64) as u32;
    assert(x & 0xffff_ffff == x % 0x1_0000_0000) by (bit_vector);
    assert(x >> 32u64 == x / 0x1_0000_0000) by (bit_vector);
    push_le32(out, lo);
    push_le32(out, hi);
    assert(out@ =~= old(out)@ + le64_bytes(x as nat));
}

/// Appends the bytes of `src` to `out`.
pub(crate) fn push_all(out: &mut Vec<u8>, src: &[u8])
    ensures
        final(out)@ == old(out)@ + src@,
{
    let mut i: usize = 0;
    while i < src.len()
        invariant
            i <= src@.len(),
            out@ == old(out)@ + src@.subrange(0, i as int),
        decreases src@.len() - i,
    {
        out.push(src[i]);
        i = i + 1;
        assert(out@ =~= old(out)@ + src@.subrange(0, i as int));
    }
    assert(src@.subrange(0, i as int) =~= src@);
}

/// Frames already-compressed data into a block.
///
/// `cdata` is the compressed payload, `crc` the checksum and `ulen` the length
/// of the uncompressed payload. Fails when the framed block would exceed the
/// maximum block size.
pub fn frame_block(cdata: &[u8], crc: u32, ulen: u32) -> (r: Result<Vec<u8>, BlockError>)
    ensures
        r is Ok <==> cdata@.len() + HEADER_LEN + TRAILER_LEN <= MAX_BLOCK_LEN,
        r matches Ok(b) ==> b@ == frame(cdata@, crc, ulen as nat),
        r matches Err(e) ==> e == BlockError::CompressionFailed,
{
    if cdata.len() > MAX_BLOCK_LEN - HEADER_LEN - TRAILER_LEN {
        return Err(BlockError::CompressionFailed);
    }
    let bsize = (cdata.len() + HEADER_LEN + TRAILER_LEN - 1) as u16;
    let mut out: Vec<u8> = Vec::new();
    out.push(0x1f);
    out.push(0x8b);
    out.push(0x08);
    out.push(0x04);
    out.push(0);
    out.push(0);
    out.push(0);
    out.push(0);
    out.push(0);
    out.push(0xff);
    out.push(0x06);
    out.push(0);
    out.push(0x42);
    out.push(0x43);
    out.push(0x02);
    out.push(0);
    assert(out@ =~= header_prefix());
    push_le16(&mut out, bsize);
    push_all(&mut out, cdata);
    push_le32(&mut out, crc);
    push_le32(&mut out, ulen);
    Ok(out)
}

/// Compresses a payload into one block.
///
/// Fails with `InputTooLarge` when the payload exceeds the encoder's limit,
/// and with `CompressionFailed` exactly when the payload's DEFLATE form does
/// not fit in a block; otherwise the block is the framing of that form, and
/// it decodes to the payload again.
pub fn encode_block(data: &[u8]) -> (r: Result<Vec<u8>, BlockError>)
    ensures
        data@.len() > MAX_ENCODE_LEN ==> r == Err::<Vec<u8>, BlockError>(BlockError::InputTooLarge),
        data@.len() <= MAX_ENCODE_LEN && r is Err ==> r == Err::<Vec<u8>, BlockError>(
            BlockError::CompressionFailed,
        ),
        data@.len() <= MAX_ENCODE_LEN ==> (r is Ok <==> deflate_of(data@).len() + HEADER_LEN
            + TRAILER_LEN <= MAX_BLOCK_LEN),
        r matches Ok(b) ==> b@ == encoded(data@) && decode_spec(b@) == Ok::<(Seq<u8>, nat), BlockError>(
            (data@, b@.len()),
        ),
{
    if data.len() > MAX_ENCODE_LEN {
        return Err(BlockError::InputTooLarge);
    }
    let cdata = match deflate(data) {
        Some(c) => c,
        None => return Err(BlockError::CompressionFailed),
    };
    let crc = crc32(data);
    let r = frame_block(cdata.as_slice(), crc, data.len() as u32);
    proof {
        if r is Ok {
            lemma_decode_frame(cdata@, crc, data@);
        }
    }
    r
}

/// Reads the 16-bit little-endian value at `i`.
fn read_le16(b: &[u8], i: usize) -> (r: u32)
    requires
        i + 2 <= b@.len(),
    ensures
        r == le16_at(b@, i as int),
{
    b[i] as u32 + 256 * (b[i + 1] as u32)
}

/// Reads the 32-bit little-endian value at `i`.
fn read_le32(b: &[u8], i: usize) -> (r: u64)
    requires
        i + 4 <= b@.len(),
    ensures
        r == le32_at(b@, i as int),
{
    b[i] as u64 + 256 * (b[i + 1] as u64) + 65536 * (b[i + 2] as u64) + 16777216 * (
    b[i + 3] as u64)
}

/// Decodes the block at the start of `b`.
///
/// Returns its decompressed payload and the number of bytes it occupies; an
/// end-of-file marker decodes to an empty payload. Fails when the input ends
/// early, the header is not a block header, the payload does not decompress,
/// or its size or checksum differ from the declared ones.
pub fn decode_block(b: &[u8]) -> (r: Result<DecodedBlock, BlockError>)
    ensures
        match decode_spec(b@) {
            Ok((d, n)) => r matches Ok(blk) && blk.data@ == d && blk.len == n,
            Err(e) => r == Err::<DecodedBlock, BlockError>(e),
        },
{
    if b.len() < HEADER_LEN {
        return Err(BlockError::Truncated);
    }
    let ok = b[0] == 0x1f && b[1] == 0x8b && b[2] == 0x08 && b[3] == 0x04 && b[10] == 0x06
        && b[11] == 0 && b[12] == 0x42 && b[13] == 0x43 && b[14] == 0x02 && b[15] == 0;
    let n = (read_le16(b, 16) + 1) as usize;
    if !ok || n < HEADER_LEN + TRAILER_LEN {
        return Err(BlockError::InvalidHeader);
    }
    if b.len() < n {
        return Err(BlockError::Truncated);
    }
    let cdata = slice_subrange(b, HEADER_LEN, n - TRAILER_LEN);
    let crc = read_le32(b, n - 8);
    let ulen = read_le32(b, n - 4);
    match inflate(cdata) {
        None => Err(BlockError::InvalidData),
        Some(d) => {
            if d.len() as u64 != ulen || ulen > MAX_UNCOMPRESSED_LEN as u64 {
                Err(BlockError::SizeMismatch)
            } else if crc32(d.as_slice()) as u64 != crc {
                Err(BlockError::ChecksumMismatch)
            } else {
                Ok(DecodedBlock { data: d, len: n })
            }
        },
    }
}

proof fn lemma_le32_injective(s: Seq<u8>, t: Seq<u8>, i: int, k: int)
    requires
        0 <= i,
        i + 4 <= s.len(),
        i + 4 <= t.len(),
        i <= k < i + 4,
        s[k] != t[k],
    ensures
        le32_at(s, i) != le32_at(t, i),
{
    let (a0, a1, a2, a3) = (s[i] as int, s[i + 1] as int, s[i + 2] as int, s[i + 3] as int);
    let (b0, b1, b2, b3) = (t[i] as int, t[i + 1] as int, t[i + 2] as int, t[i + 3] as int);
    if le32_at(s, i) == le32_at(t, i) {
        assert(a0 == b0 && a1 == b1 && a2 == b2 && a3 == b3) by (nonlinear_arith)
            requires
                0 <= a0 < 256,
                0 <= a1 < 256,
                0 <= a2 < 256,
                0 <= a3 < 256,
                0 <= b0 < 256,
                0 <= b1 < 256,
                0 <= b2 < 256,
                0 <= b3 < 256,
                a0 + 256 * a1 + 65536 * a2 + 16777216 * a3 == b0 + 256 * b1 + 65536 * b2
                    + 16777216 * b3,
        ;
    }
}

/// Changing any one byte of a valid block's checksum field makes decoding
/// fail with a checksum mismatch.
pub proof fn lemma_corrupt_checksum(b: Seq<u8>, i: int, v: u8)
    requires
        decode_spec(b) is Ok,
        declared_len(b) - 8 <= i < declared_len(b) - 4,
        b[i] != v,
    ensures
        decode_spec(b.update(i, v)) == Err::<(Seq<u8>, nat), BlockError>(
            BlockError::ChecksumMismatch,
        ),
{
    let c = b.update(i, v);
    let n = declared_len(b) as int;
    assert(declared_len(c) == n);
    assert(c.subrange(HEADER_LEN as int, n - 8) =~= b.subrange(HEADER_LEN as int, n - 8));
    assert(le32_at(c, n - 4) == le32_at(b, n - 4));
    lemma_le32_injective(b, c, n - 8, i);
}

/// Decoding a framed block gives back the payload that was framed.
proof fn lemma_decode_frame(cdata: Seq<u8>, crc: u32, data: Seq<u8>)
    requires
        cdata.len() + HEADER_LEN + TRAILER_LEN <= MAX_BLOCK_LEN,
        data.len() <= MAX_UNCOMPRESSED_LEN,
        inflate_of(cdata) == Some(data),
        crc == crc32_of(data),
    ensures
        decode_spec(frame(cdata, crc, data.len())) == Ok::<(Seq<u8>, nat), BlockError>(
            (data, frame(cdata, crc, data.len()).len()),
        ),
{
    let b = frame(cdata, crc, data.len());
    let n: int = cdata.len() + 26int;
    lemma_le16_roundtrip((n - 1) as nat);
    lemma_le32_roundtrip(crc as nat);
    lemma_le32_roundtrip(data.len());
    assert(b.len() == n);
    assert(b.subrange(16, 18) =~= le16_bytes((n - 1) as nat));
    assert(le16_at(b, 16) == le16_at(b.subrange(16, 18), 0));
    assert(b.subrange(HEADER_LEN as int, n - 8) =~= cdata);
    assert(b.subrange(n - 8, n - 4) =~= le32_bytes(crc as nat));
    assert(le32_at(b, n - 8) == le32_at(b.subrange(n - 8, n - 4), 0));
    assert(b.subrange(n - 4, n) =~= le32_bytes(data.len()));
    assert(le32_at(b, n - 4) == le32_at(b.subrange(n - 4, n), 0));
}

} // verus!
