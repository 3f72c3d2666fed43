//! The frame that carries a payload through the image, and the capacity of
//! an image.
//!
//! A frame is `GNQM`, the payload length as a big-endian `u32`, the CRC-32
//! of the payload as a big-endian `u32`, then the payload. Each bit of the
//! frame, most significant bit of each byte first, goes into one 8×8 block
//! of the image, block by block in row-major order.

use vstd::prelude::*;

use crate::bits::{
    bits_to_bytes, bytes_to_bits, lemma_bits_roundtrip, lemma_bits_subrange, lemma_pack_concat,
    num_chunks, spec_bits_to_bytes, spec_bytes_to_bits,
};
use crate::crc::{crc32, spec_crc32};

verus! {

/// Side of the square blocks that the image is cut into.
pub const N: usize = 8;

/// Bytes of the frame before the payload: magic, length, CRC.
pub const HEADER_BYTES: usize = 12;

/// The four magic bytes that open a frame: `G`, `N`, `Q`, `M`.
pub open spec fn magic() -> Seq<u8> {
    seq![71u8, 78u8, 81u8, 77u8]
}

/// A `u32` as four bytes, most significant first.
pub open spec fn be_bytes(v: u32) -> Seq<u8> {
    seq![(v >> 24u32) as u8, (v >> 16u32) as u8, (v >> 8u32) as u8, v as u8]
}

/// The `u32` whose big-endian bytes are `b[0..4]`.
pub open spec fn be_u32(b: Seq<u8>) -> u32 {
    ((b[0] as u32) << 24u32) | ((b[1] as u32) << 16u32) | ((b[2] as u32) << 8u32) | (b[3] as u32)
}

/// The frame of `payload`. The length field holds the payload length
/// modulo 2^32.
pub open spec fn spec_frame(payload: Seq<u8>) -> Seq<u8> {
    magic() + be_bytes(payload.len() as u32) + be_bytes(spec_crc32(payload)) + payload
}

/// Number of whole 8×8 blocks in a `width` × `height` image.
pub open spec fn spec_num_blocks(width: nat, height: nat) -> nat {
    (width / 8) * (height / 8)
}

/// Payload bytes that `num_blocks` blocks can carry after the header.
pub open spec fn spec_capacity_bytes(num_blocks: nat) -> nat {
    if num_blocks >= 8 * 12 {
        ((num_blocks - 8 * 12) as nat) / 8
    } else {
        0
    }
}

/// Bits needed to carry the frame of a payload of `len` bytes.
pub open spec fn spec_frame_bits(len: nat) -> nat {
    8 * (12 + len)
}

/// Why a payload cannot be embedded.
#[derive(Debug, PartialEq, Eq)]
pub enum EmbedError {
    /// The frame needs more blocks than the image has.
    PayloadTooLarge { needed_bits: usize, num_blocks: usize, max_payload: usize },
}

/// Why no payload could be read back.
#[derive(Debug, PartialEq, Eq)]
pub enum ExtractError {
    /// Fewer bits than a header.
    ImageTooSmall,
    /// The first four header bytes are not `GNQM`; they are given.
    InvalidMagic { found: (u8, u8, u8, u8) },
    /// The header announces more bits than there are.
    Truncated { needed_bits: u64, available_bits: usize },
    /// The payload's CRC-32 differs from the one in the header.
    CrcMismatch { expected: u32, actual: u32 },
}

/// What reading a frame back from `raw` bits gives.
pub open spec fn spec_decode(raw: Seq<u8>) -> Result<Seq<u8>, ExtractError> {
    if raw.len() < 8 * 12 {
        Err(ExtractError::ImageTooSmall)
    } else {
        let header = spec_bits_to_bytes(raw.take(96int));
        if header.take(4) != magic() {
            Err(ExtractError::InvalidMagic { found: (header[0], header[1], header[2], header[3]) })
        } else {
            let len = be_u32(header.subrange(4, 8));
            let expected = be_u32(header.subrange(8, 12));
            let needed: int = 96 + 8 * len;
            if needed > raw.len() {
                Err(ExtractError::Truncated { needed_bits: needed as u64, available_bits: raw.len() as usize })
            } else {
                let payload = spec_bits_to_bytes(raw.subrange(96, needed));
                if spec_crc32(payload) != expected {
                    Err(ExtractError::CrcMismatch { expected, actual: spec_crc32(payload) })
                } else {
                    Ok(payload)
                }
            }
        }
    }
}

/// The width and height of the part of the image that whole blocks cover.
pub fn block_grid(width: usize, height: usize) -> (r: (usize, usize))
    ensures
        r.0 == width - width % 8,
        r.1 == height - height % 8,
{
    (width - width % N, height - height % N)
}

/// Embedding capacity of a `width` × `height` image: the number of whole
/// blocks, one bit each, and the payload bytes left after the header.
pub fn capacity(width: usize, height: usize) -> (r: (usize, usize))
    requires
        spec_num_blocks(width as nat, height as nat) <= usize::MAX,
    ensures
        r.0 == spec_num_blocks(width as nat, height as nat),
        r.1 == spec_capacity_bytes(spec_num_blocks(width as nat, height as nat)),
{
    let (w, h) = block_grid(width, height);
    assert(w / 8 == width / 8 && h / 8 == height / 8);
    let total_blocks = (w / N) * (h / N);
    let payload_bits = total_blocks.saturating_sub(HEADER_BYTES * 8);
    let payload_bytes = payload_bits / 8;
    (total_blocks, payload_bytes)
}

fn push_be32(out: &mut Vec<u8>, v: u32)
    ensures
        final(out)@ == old(out)@ + be_bytes(v),
{
    out.push((v >> 24) as u8);
    out.push((v >> 16) as u8);
    out.push((v >> 8) as u8);
    out.push(v as u8);
    assert(final(out)@ =~= old(out)@ + be_bytes(v));
}

/// The frame of `payload`: magic, length, CRC-32, payload.
pub fn frame_payload(payload: &[u8]) -> (framed: Vec<u8>)
    requires
        12 + payload.len() <= usize::MAX,
    ensures
        framed@ == spec_frame(payload@),
{
    let mut framed: Vec<u8> = Vec::with_capacity(HEADER_BYTES + payload.len());
    framed.push(71);
    framed.push(78);
    framed.push(81);
    framed.push(77);
    assert(framed@ =~= magic());
    push_be32(&mut framed, payload.len() as u32);
    let crc = crc32(payload);
    push_be32(&mut framed, crc);
    let mut i: usize = 0;
    let ghost head = framed@;
    while i < payload.len()
        invariant
            i <= payload.len(),
            framed@ =~= head + payload@.take(i as int),
        decreases payload.len() - i,
    {
        framed.push(payload[i]);
        assert(payload@.take(i + 1) =~= payload@.take(i as int).push(payload@[i as int]));
        i = i + 1;
    }
    assert(payload@.take(payload.len() as int) =~= payload@);
    framed
}

/// The bits to embed for `payload` in a `width` × `height` image: the bits
/// of its frame, or an error when the frame needs more blocks than the
/// image has.
pub fn watermark_bits(payload: &[u8], width: usize, height: usize) -> (r: Result<Vec<u8>, EmbedError>)
    requires
        spec_frame_bits(payload.len() as nat) <= usize::MAX,
        spec_num_blocks(width as nat, height as nat) <= usize::MAX,
    ensures
        match r {
            Ok(bits) => {
                &&& spec_frame_bits(payload.len() as nat) <= spec_num_blocks(width as nat, height as nat)
                &&& bits@ == spec_bytes_to_bits(spec_frame(payload@))
            },
            Err(e) => {
                &&& spec_frame_bits(payload.len() as nat) > spec_num_blocks(width as nat, height as nat)
                &&& e == EmbedError::PayloadTooLarge {
                    needed_bits: spec_frame_bits(payload.len() as nat) as usize,
                    num_blocks: spec_num_blocks(width as nat, height as nat) as usize,
                    max_payload: spec_capacity_bytes(spec_num_blocks(width as nat, height as nat)) as usize,
                }
            },
        },
{
    let framed = frame_payload(payload);
    let bits = bytes_to_bits(framed.as_slice());
    let (num_blocks, max_payload) = capacity(width, height);
    if bits.len() > num_blocks {
        return Err(EmbedError::PayloadTooLarge { needed_bits: bits.len(), num_blocks, max_payload });
    }
    Ok(bits)
}

/// Reads a frame back from the bits taken out of the image, block by
/// block, and returns its payload, or the first check that fails.
pub fn decode_watermark(raw_bits: &[u8]) -> (r: Result<Vec<u8>, ExtractError>)
    ensures
        match r {
            Ok(payload) => spec_decode(raw_bits@) == Ok::<Seq<u8>, ExtractError>(payload@),
            Err(e) => spec_decode(raw_bits@) == Err::<Seq<u8>, ExtractError>(e),
        },
{
    if raw_bits.len() < HEADER_BYTES * 8 {
        return Err(ExtractError::ImageTooSmall);
    }
    let header = bits_to_bytes(&raw_bits[0..HEADER_BYTES * 8]);
    assert(raw_bits@.subrange(0, 96) =~= raw_bits@.take(96));
    assert(header@.len() == 12);
    if header[0] != 71 || header[1] != 78 || header[2] != 81 || header[3] != 77 {
        assert(header@.take(4) != magic()) by {
            if header@.take(4) == magic() {
                assert(header@.take(4)[0] == 71u8);
                assert(header@.take(4)[1] == 78u8);
                assert(header@.take(4)[2] == 81u8);
                assert(header@.take(4)[3] == 77u8);
            }
        }
        return Err(ExtractError::InvalidMagic { found: (header[0], header[1], header[2], header[3]) });
    }
    assert(header@.take(4) =~= magic());
    let payload_len: u32 = ((header[4] as u32) << 24) | ((header[5] as u32) << 16)
        | ((header[6] as u32) << 8) | (header[7] as u32);
    let expected_crc: u32 = ((header[8] as u32) << 24) | ((header[9] as u32) << 16)
        | ((header[10] as u32) << 8) | (header[11] as u32);
    assert(payload_len == be_u32(header@.subrange(4, 8)));
    assert(expected_crc == be_u32(header@.subrange(8, 12)));
    let total_bits_needed: u64 = 96 + (payload_len as u64) * 8;
    if total_bits_needed > raw_bits.len() as u64 {
        return Err(ExtractError::Truncated { needed_bits: total_bits_needed, available_bits: raw_bits.len() });
    }
    let payload = bits_to_bytes(&raw_bits[HEADER_BYTES * 8..total_bits_needed as usize]);
    let actual_crc = crc32(payload.as_slice());
    if actual_crc != expected_crc {
        return Err(ExtractError::CrcMismatch { expected: expected_crc, actual: actual_crc });
    }
    Ok(payload)
}

/// Reading back the four big-endian bytes of a `u32` gives that `u32`.
pub proof fn lemma_be_roundtrip(v: u32)
    ensures
        be_u32(be_bytes(v)) == v,
{
    assert(((((v >> 24u32) as u8) as u32) << 24u32) | ((((v >> 16u32) as u8) as u32) << 16u32)
        | ((((v >> 8u32) as u8) as u32) << 8u32) | ((v as u8) as u32) == v) by (bit_vector);
}

/// A frame, read back from its bits followed by any further bits (those of
/// the blocks after the frame), gives back its payload, for every payload
/// whose length fits the `u32` length field.
#[verifier::spinoff_prover]
#[verifier::rlimit(40)]
pub proof fn lemma_decode_frame(payload: Seq<u8>, rest: Seq<u8>)
    requires
        payload.len() <= u32::MAX,
    ensures
        spec_decode(spec_bytes_to_bits(spec_frame(payload)) + rest) == Ok::<Seq<u8>, ExtractError>(payload),
{
    let f = spec_frame(payload);
    let bits = spec_bytes_to_bits(f);
    let raw = bits + rest;
    assert(f.len() == 12 + payload.len());
    assert(f.subrange(0, 12) =~= magic() + be_bytes(payload.len() as u32) + be_bytes(spec_crc32(payload)));
    assert(f.subrange(12, 12 + payload.len() as int) =~= payload);

    lemma_bits_subrange(f, 0, 12);
    assert(raw.take(96) =~= bits.subrange(0, 96));
    lemma_bits_roundtrip(f.subrange(0, 12));
    let header = spec_bits_to_bytes(raw.take(96));
    assert(header =~= f.subrange(0, 12));
    assert(header.take(4) =~= magic());
    assert(header.subrange(4, 8) =~= be_bytes(payload.len() as u32));
    assert(header.subrange(8, 12) =~= be_bytes(spec_crc32(payload)));
    lemma_be_roundtrip(payload.len() as u32);
    lemma_be_roundtrip(spec_crc32(payload));
    assert((payload.len() as u32) as int == payload.len());

    let needed: int = 96 + 8 * (payload.len() as int);
    lemma_bits_subrange(f, 12, 12 + payload.len() as int);
    assert(raw.subrange(96, needed) =~= bits.subrange(96, needed));
    lemma_bits_roundtrip(payload);
    assert(spec_bits_to_bytes(raw.subrange(96, needed)) =~= payload);
}

/// A payload fits in an image of `num_blocks` blocks exactly when the
/// image has room for the header and the payload is no longer than the
/// capacity that `capacity` reports.
pub proof fn lemma_fits_iff_within_capacity(len: nat, num_blocks: nat)
    ensures
        spec_frame_bits(len) <= num_blocks <==> (num_blocks >= 96 && len <= spec_capacity_bytes(num_blocks)),
{
    if num_blocks >= 96 {
        let c = ((num_blocks - 96) as nat) / 8;
        assert(8 * c <= num_blocks - 96 < 8 * c + 8);
    }
}

/// Four bytes read as a big-endian `u32` and written back are the same bytes.
proof fn lemma_be_bytes_of_u32(b: Seq<u8>)
    requires
        b.len() == 4,
    ensures
        be_bytes(be_u32(b)) =~= b,
{
    let (b0, b1, b2, b3) = (b[0], b[1], b[2], b[3]);
    let v = be_u32(b);
    assert((v >> 24u32) as u8 == b0 && (v >> 16u32) as u8 == b1 && (v >> 8u32) as u8 == b2 && v as u8 == b3)
        by (bit_vector)
        requires
            v == ((b0 as u32) << 24u32) | ((b1 as u32) << 16u32) | ((b2 as u32) << 8u32) | (b3 as u32),
    ;
}

/// Reading a payload back accepts only frames: when it returns a payload,
/// the bits it read start with the bits of that payload's frame (magic,
/// length, CRC-32 of the payload, payload), so in particular the CRC-32
/// stored in header bytes 8..12 is the CRC-32 of the returned payload.
#[verifier::spinoff_prover]
pub proof fn lemma_decode_accepts_only_frames(raw: Seq<u8>)
    ensures
        spec_decode(raw) matches Ok(p) ==> {
            &&& p.len() <= u32::MAX
            &&& 96 + 8 * p.len() <= raw.len()
            &&& spec_bits_to_bytes(raw.take(96 + 8 * (p.len() as int))) == spec_frame(p)
            &&& spec_crc32(p) == be_u32(spec_bits_to_bytes(raw.take(96)).subrange(8, 12))
        },
{
    if let Ok(p) = spec_decode(raw) {
        let header = spec_bits_to_bytes(raw.take(96));
        let len = be_u32(header.subrange(4, 8));
        let expected = be_u32(header.subrange(8, 12));
        let needed: int = 96 + 8 * len;
        let body = raw.subrange(96, needed);
        assert(body.len() == 8 * len);
        assert(num_chunks(body.len()) == len);
        assert(p.len() == len);
        assert(raw.take(needed) =~= raw.take(96) + body);
        lemma_pack_concat(raw.take(96), body);
        assert(num_chunks(96) == 12);
        assert(header.len() == 12);
        lemma_be_bytes_of_u32(header.subrange(4, 8));
        lemma_be_bytes_of_u32(header.subrange(8, 12));
        assert((p.len() as u32) == len);
        assert(header =~= magic() + header.subrange(4, 8) + header.subrange(8, 12));
        assert(spec_bits_to_bytes(raw.take(needed)) =~= spec_frame(p));
    }
}

/// The layout of a frame: `G`, `N`, `Q`, `M`; the payload length cut to
/// 32 bits and then the payload's CRC-32, each as four base-256 digits, most
/// significant first; then the payload itself.
pub proof fn lemma_frame_layout(payload: Seq<u8>)
    ensures
        spec_frame(payload).len() == 12 + payload.len(),
        spec_frame(payload)[0] == 71 && spec_frame(payload)[1] == 78 && spec_frame(payload)[2] == 81
            && spec_frame(payload)[3] == 77,
        16777216 * spec_frame(payload)[4] + 65536 * spec_frame(payload)[5] + 256 * spec_frame(payload)[6]
            + spec_frame(payload)[7] == payload.len() as u32,
        16777216 * spec_frame(payload)[8] + 65536 * spec_frame(payload)[9] + 256 * spec_frame(payload)[10]
            + spec_frame(payload)[11] == spec_crc32(payload),
        spec_frame(payload).subrange(12, 12 + payload.len() as int) == payload,
{
    let f = spec_frame(payload);
    assert(f.subrange(12, 12 + payload.len() as int) =~= payload);
    let n = payload.len() as u32;
    let c = spec_crc32(payload);
    assert(16777216 * ((n >> 24u32) as u8) + 65536 * ((n >> 16u32) as u8) + 256 * ((n >> 8u32) as u8) + (n as u8)
        == n) by (bit_vector);
    assert(16777216 * ((c >> 24u32) as u8) + 65536 * ((c >> 16u32) as u8) + 256 * ((c >> 8u32) as u8) + (c as u8)
        == c) by (bit_vector);
}

/// `capacity` reports the largest payload whose frame fits: with at least
/// 96 blocks, a header plus that many bytes fits and one byte more does not.
pub proof fn lemma_capacity_is_largest(num_blocks: nat)
    ensures
        num_blocks >= 96 ==> 96 + 8 * spec_capacity_bytes(num_blocks) <= num_blocks < 96 + 8 * (
        spec_capacity_bytes(num_blocks) + 1),
        num_blocks < 96 ==> spec_capacity_bytes(num_blocks) == 0,
{
}

/// Every error that reading a frame back reports is true of the bits read:
/// too few bits for a header; a header whose first four bytes, given, are
/// not `GNQM`; a length that needs more bits than there are, with both
/// counts given; or a payload whose CRC-32 differs from the stored one,
/// with both given.
pub proof fn lemma_decode_errors_are_accurate(raw: Seq<u8>)
    requires
        raw.len() <= usize::MAX,
    ensures
        spec_decode(raw) == Err::<Seq<u8>, ExtractError>(ExtractError::ImageTooSmall) <==> raw.len() < 96,
        spec_decode(raw) matches Err(ExtractError::InvalidMagic { found }) ==> {
            let h = spec_bits_to_bytes(raw.take(96));
            &&& raw.len() >= 96
            &&& found == (h[0], h[1], h[2], h[3])
            &&& found != (71u8, 78u8, 81u8, 77u8)
        },
        spec_decode(raw) matches Err(ExtractError::Truncated { needed_bits, available_bits }) ==> {
            let h = spec_bits_to_bytes(raw.take(96));
            &&& available_bits == raw.len()
            &&& needed_bits > available_bits
            &&& needed_bits == 96 + 8 * (16777216 * h[4] + 65536 * h[5] + 256 * h[6] + h[7])
        },
        spec_decode(raw) matches Err(ExtractError::CrcMismatch { expected, actual }) ==> {
            let h = spec_bits_to_bytes(raw.take(96));
            let len = 16777216 * h[4] + 65536 * h[5] + 256 * h[6] + h[7];
            &&& expected != actual
            &&& expected == 16777216 * h[8] + 65536 * h[9] + 256 * h[10] + h[11]
            &&& actual == spec_crc32(spec_bits_to_bytes(raw.subrange(96, 96 + 8 * len)))
        },
{
    if raw.len() >= 96 {
        let h = spec_bits_to_bytes(raw.take(96));
        assert(num_chunks(96) == 12);
        let (h0, h1, h2, h3) = (h[0], h[1], h[2], h[3]);
        let (h4, h5, h6, h7) = (h[4], h[5], h[6], h[7]);
        let (h8, h9, h10, h11) = (h[8], h[9], h[10], h[11]);
        if h.take(4) == magic() {
            assert(h0 == h.take(4)[0] && h1 == h.take(4)[1] && h2 == h.take(4)[2] && h3 == h.take(4)[3]);
        } else {
            assert(h.take(4) =~= seq![h0, h1, h2, h3]);
        }
        let len = be_u32(h.subrange(4, 8));
        let crc = be_u32(h.subrange(8, 12));
        assert(((h4 as u32) << 24u32) | ((h5 as u32) << 16u32) | ((h6 as u32) << 8u32) | (h7 as u32) == 16777216
            * h4 + 65536 * h5 + 256 * h6 + h7) by (bit_vector);
        assert(((h8 as u32) << 24u32) | ((h9 as u32) << 16u32) | ((h10 as u32) << 8u32) | (h11 as u32) == 16777216
            * h8 + 65536 * h9 + 256 * h10 + h11) by (bit_vector);
        assert(len == 16777216 * h4 + 65536 * h5 + 256 * h6 + h7);
        assert(crc == 16777216 * h8 + 65536 * h9 + 256 * h10 + h11);
    }
}

/// Bits that follow a complete, accepted frame do not change what is read
/// back.
pub proof fn lemma_decode_ignores_trailing_bits(raw: Seq<u8>, more: Seq<u8>)
    ensures
        spec_decode(raw) is Ok ==> spec_decode(raw + more) == spec_decode(raw),
{
    if spec_decode(raw) is Ok {
        let all = raw + more;
        assert(all.take(96) =~= raw.take(96));
        let h = spec_bits_to_bytes(raw.take(96));
        let needed: int = 96 + 8 * be_u32(h.subrange(4, 8));
        assert(all.subrange(96, needed) =~= raw.subrange(96, needed));
    }
}

} // verus!
