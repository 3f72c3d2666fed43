//! CRC-32 (IEEE 802.3, reflected polynomial 0xEDB88320).

use vstd::prelude::*;

verus! {

/// The reflected IEEE 802.3 generator polynomial.
pub open spec fn crc_poly() -> u32 {
    0xEDB8_8320u32
}

/// One step of the bitwise CRC register: shift right, and fold in the
/// polynomial when the bit shifted out was set.
pub open spec fn crc_shift(c: u32) -> u32 {
    if c & 1u32 != 0 {
        (c >> 1u32) ^ crc_poly()
    } else {
        c >> 1u32
    }
}

/// `n` register steps.
pub open spec fn crc_shift_n(c: u32, n: nat) -> u32
    decreases n,
{
    if n == 0 {
        c
    } else {
        crc_shift(crc_shift_n(c, (n - 1) as nat))
    }
}

/// The CRC register after feeding `data`, byte by byte, into a register
/// that starts at `init`.
pub open spec fn crc_feed(init: u32, data: Seq<u8>) -> u32
    decreases data.len(),
{
    if data.len() == 0 {
        init
    } else {
        crc_shift_n(crc_feed(init, data.drop_last()) ^ (data.last() as u32), 8)
    }
}

/// CRC-32 of `data`: the register starts with all ones and the result is
/// complemented.
pub open spec fn spec_crc32(data: Seq<u8>) -> u32 {
    !crc_feed(0xFFFF_FFFFu32, data)
}

/// CRC-32 (IEEE 802.3) of `data`.
pub fn crc32(data: &[u8]) -> (r: u32)
    ensures
        r == spec_crc32(data@),
{
    let mut crc: u32 = 0xFFFF_FFFF;
    let mut i: usize = 0;
    while i < data.len()
        invariant
            i <= data.len(),
            crc == crc_feed(0xFFFF_FFFFu32, data@.take(i as int)),
        decreases data.len() - i,
    {
        assert(data@.take(i + 1).drop_last() =~= data@.take(i as int));
        let start: u32 = crc ^ (data[i] as u32);
        crc = start;
        let mut k: usize = 0;
        while k < 8
            invariant
                k <= 8,
                crc == crc_shift_n(start, k as nat),
            decreases 8 - k,
        {
            let prev: u32 = crc;
            let mask: u32 = if (crc & 1) != 0 { 0xEDB8_8320 } else { 0 };
            crc = (crc >> 1) ^ mask;
            assert((prev >> 1u32) ^ 0u32 == prev >> 1u32) by (bit_vector);
            k = k + 1;
        }
        i = i + 1;
    }
    assert(data@.take(data.len() as int) =~= data@);
    !crc
}

/// The register step is linear over GF(2): it distributes over XOR.
proof fn lemma_shift_xor(x: u32, y: u32)
    ensures
        crc_shift(x ^ y) == crc_shift(x) ^ crc_shift(y),
{
    assert(crc_shift(x ^ y) == crc_shift(x) ^ crc_shift(y)) by (bit_vector);
}

/// `n` register steps distribute over XOR.
proof fn lemma_shift_n_xor(x: u32, y: u32, n: nat)
    ensures
        crc_shift_n(x ^ y, n) == crc_shift_n(x, n) ^ crc_shift_n(y, n),
    decreases n,
{
    if n > 0 {
        lemma_shift_n_xor(x, y, (n - 1) as nat);
        lemma_shift_xor(crc_shift_n(x, (n - 1) as nat), crc_shift_n(y, (n - 1) as nat));
    }
}

/// `a + b` register steps are `a` steps followed by `b` steps.
proof fn lemma_shift_n_add(x: u32, a: nat, b: nat)
    ensures
        crc_shift_n(x, a + b) == crc_shift_n(crc_shift_n(x, a), b),
    decreases b,
{
    if b > 0 {
        lemma_shift_n_add(x, a, (b - 1) as nat);
        assert((a + b - 1) as nat == a + (b - 1) as nat);
    }
}

/// A register whose low byte is clear only shifts during eight steps.
proof fn lemma_shift_clear_low(y: u32, j: nat)
    requires
        j <= 8,
        y & 0xFFu32 == 0,
    ensures
        crc_shift_n(y, j) == y >> (j as u32),
    decreases j,
{
    if j == 0 {
        assert(y >> 0u32 == y) by (bit_vector);
    } else {
        lemma_shift_clear_low(y, (j - 1) as nat);
        let k = (j - 1) as u32;
        assert(y & 0xFFu32 == 0 && k < 8 ==> (y >> k) & 1u32 == 0 && (y >> k) >> 1u32 == y >> (k + 1u32))
            by (bit_vector);
    }
}

/// Feeding one more byte runs the register eight steps on the byte XORed
/// into it.
proof fn lemma_feed_push(init: u32, s: Seq<u8>, b: u8)
    ensures
        crc_feed(init, s.push(b)) == crc_shift_n(crc_feed(init, s) ^ (b as u32), 8),
{
    assert(s.push(b).drop_last() =~= s);
}

/// Feeding the low byte of `v` into a register `z ^ v` leaves eight steps of
/// `z`, plus the rest of `v` shifted down a byte.
proof fn lemma_byte_step(z: u32, v: u32)
    ensures
        crc_shift_n(z ^ v ^ ((v as u8) as u32), 8) == crc_shift_n(z, 8) ^ (v >> 8u32),
{
    let high = v & 0xFFFF_FF00u32;
    assert(z ^ v ^ ((v as u8) as u32) == z ^ high && high & 0xFFu32 == 0 && high >> 8u32 == v >> 8u32)
        by (bit_vector)
        requires
            high == v & 0xFFFF_FF00u32,
    ;
    lemma_shift_n_xor(z, high, 8);
    lemma_shift_clear_low(high, 8);
}

/// The four bytes of `v`, least significant first.
pub open spec fn le_bytes(v: u32) -> Seq<u8> {
    seq![v as u8, (v >> 8u32) as u8, (v >> 16u32) as u8, (v >> 24u32) as u8]
}

/// Feeding the four little-endian bytes of `v` into register `r` is 32
/// steps of `r ^ v`.
proof fn lemma_feed_word(init: u32, m: Seq<u8>, v: u32)
    ensures
        crc_feed(init, m + le_bytes(v)) == crc_shift_n(crc_feed(init, m) ^ v, 32),
{
    let q = le_bytes(v);
    let r = crc_feed(init, m);
    let v1 = v >> 8u32;
    let v2 = v1 >> 8u32;
    let v3 = v2 >> 8u32;
    assert(v2 == v >> 16u32 && v3 == v >> 24u32 && v3 >> 8u32 == 0 && r == (r ^ v) ^ v) by (bit_vector)
        requires
            v1 == v >> 8u32,
            v2 == v1 >> 8u32,
            v3 == v2 >> 8u32,
    ;
    let z0 = r ^ v;
    let z1 = crc_shift_n(z0, 8);
    let z2 = crc_shift_n(z1, 8);
    let z3 = crc_shift_n(z2, 8);
    let z4 = crc_shift_n(z3, 8);
    assert(m + q =~= m.push(q[0]).push(q[1]).push(q[2]).push(q[3]));
    lemma_feed_push(init, m, q[0]);
    lemma_byte_step(z0, v);
    lemma_feed_push(init, m.push(q[0]), q[1]);
    lemma_byte_step(z1, v1);
    lemma_feed_push(init, m.push(q[0]).push(q[1]), q[2]);
    lemma_byte_step(z2, v2);
    lemma_feed_push(init, m.push(q[0]).push(q[1]).push(q[2]), q[3]);
    lemma_byte_step(z3, v3);
    assert(z4 ^ 0u32 == z4) by (bit_vector);
    lemma_shift_n_add(z0, 8, 8);
    lemma_shift_n_add(z0, 16, 8);
    lemma_shift_n_add(z0, 24, 8);
}

/// The CRC-32 check: a message followed by its own CRC-32, least
/// significant byte first, always has CRC-32 0x2144DF1C, whatever the
/// message.
pub proof fn lemma_crc32_residue(m: Seq<u8>)
    ensures
        spec_crc32(m + le_bytes(spec_crc32(m))) == 0x2144_DF1Cu32,
{
    let r = crc_feed(0xFFFF_FFFFu32, m);
    lemma_feed_word(0xFFFF_FFFFu32, m, !r);
    assert(r ^ !r == 0xFFFF_FFFFu32) by (bit_vector);
    assert(
        crc_shift(0xFFFFFFFFu32) == 0x92477CDFu32 &&
        crc_shift(0x92477CDFu32) == 0xA49B3D4Fu32 &&
        crc_shift(0xA49B3D4Fu32) == 0xBFF51D87u32 &&
        crc_shift(0xBFF51D87u32) == 0xB2420DE3u32 &&
        crc_shift(0xB2420DE3u32) == 0xB49985D1u32 &&
        crc_shift(0xB49985D1u32) == 0xB7F441C8u32 &&
        crc_shift(0xB7F441C8u32) == 0x5BFA20E4u32 &&
        crc_shift(0x5BFA20E4u32) == 0x2DFD1072u32 &&
        crc_shift(0x2DFD1072u32) == 0x16FE8839u32 &&
        crc_shift(0x16FE8839u32) == 0xE6C7C73Cu32 &&
        crc_shift(0xE6C7C73Cu32) == 0x7363E39Eu32 &&
        crc_shift(0x7363E39Eu32) == 0x39B1F1CFu32 &&
        crc_shift(0x39B1F1CFu32) == 0xF1607BC7u32 &&
        crc_shift(0xF1607BC7u32) == 0x9508BEC3u32 &&
        crc_shift(0x9508BEC3u32) == 0xA73CDC41u32 &&
        crc_shift(0xA73CDC41u32) == 0xBE26ED00u32 &&
        crc_shift(0xBE26ED00u32) == 0x5F137680u32 &&
        crc_shift(0x5F137680u32) == 0x2F89BB40u32 &&
        crc_shift(0x2F89BB40u32) == 0x17C4DDA0u32 &&
        crc_shift(0x17C4DDA0u32) == 0x0BE26ED0u32 &&
        crc_shift(0x0BE26ED0u32) == 0x05F13768u32 &&
        crc_shift(0x05F13768u32) == 0x02F89BB4u32 &&
        crc_shift(0x02F89BB4u32) == 0x017C4DDAu32 &&
        crc_shift(0x017C4DDAu32) == 0x00BE26EDu32 &&
        crc_shift(0x00BE26EDu32) == 0xEDE79056u32 &&
        crc_shift(0xEDE79056u32) == 0x76F3C82Bu32 &&
        crc_shift(0x76F3C82Bu32) == 0xD6C16735u32 &&
        crc_shift(0xD6C16735u32) == 0x86D830BAu32 &&
        crc_shift(0x86D830BAu32) == 0x436C185Du32 &&
        crc_shift(0x436C185Du32) == 0xCC0E8F0Eu32 &&
        crc_shift(0xCC0E8F0Eu32) == 0x66074787u32 &&
        crc_shift(0x66074787u32) == 0xDEBB20E3u32
    ) by (bit_vector);
    assert(crc_shift_n(0xFFFF_FFFFu32, 0) == 0xFFFF_FFFFu32);
    assert(crc_shift_n(0xFFFF_FFFFu32, 1) == 0x92477CDFu32);
    assert(crc_shift_n(0xFFFF_FFFFu32, 2) == 0xA49B3D4Fu32);
    assert(crc_shift_n(0xFFFF_FFFFu32, 3) == 0xBFF51D87u32);
    assert(crc_shift_n(0xFFFF_FFFFu32, 4) == 0xB2420DE3u32);
    assert(crc_shift_n(0xFFFF_FFFFu32, 5) == 0xB49985D1u32);
    assert(crc_shift_n(0xFFFF_FFFFu32, 6) == 0xB7F441C8u32);
    assert(crc_shift_n(0xFFFF_FFFFu32, 7) == 0x5BFA20E4u32);
    assert(crc_shift_n(0xFFFF_FFFFu32, 8) == 0x2DFD1072u32);
    assert(crc_shift_n(0xFFFF_FFFFu32, 9) == 0x16FE8839u32);
    assert(crc_shift_n(0xFFFF_FFFFu32, 10) == 0xE6C7C73Cu32);
    assert(crc_shift_n(0xFFFF_FFFFu32, 11) == 0x7363E39Eu32);
    assert(crc_shift_n(0xFFFF_FFFFu32, 12) == 0x39B1F1CFu32);
    assert(crc_shift_n(0xFFFF_FFFFu32, 13) == 0xF1607BC7u32);
    assert(crc_shift_n(0xFFFF_FFFFu32, 14) == 0x9508BEC3u32);
    assert(crc_shift_n(0xFFFF_FFFFu32, 15) == 0xA73CDC41u32);
    assert(crc_shift_n(0xFFFF_FFFFu32, 16) == 0xBE26ED00u32);
    assert(crc_shift_n(0xFFFF_FFFFu32, 17) == 0x5F137680u32);
    assert(crc_shift_n(0xFFFF_FFFFu32, 18) == 0x2F89BB40u32);
    assert(crc_shift_n(0xFFFF_FFFFu32, 19) == 0x17C4DDA0u32);
    assert(crc_shift_n(0xFFFF_FFFFu32, 20) == 0x0BE26ED0u32);
    assert(crc_shift_n(0xFFFF_FFFFu32, 21) == 0x05F13768u32);
    assert(crc_shift_n(0xFFFF_FFFFu32, 22) == 0x02F89BB4u32);
    assert(crc_shift_n(0xFFFF_FFFFu32, 23) == 0x017C4DDAu32);
    assert(crc_shift_n(0xFFFF_FFFFu32, 24) == 0x00BE26EDu32);
    assert(crc_shift_n(0xFFFF_FFFFu32, 25) == 0xEDE79056u32);
    assert(crc_shift_n(0xFFFF_FFFFu32, 26) == 0x76F3C82Bu32);
    assert(crc_shift_n(0xFFFF_FFFFu32, 27) == 0xD6C16735u32);
    assert(crc_shift_n(0xFFFF_FFFFu32, 28) == 0x86D830BAu32);
    assert(crc_shift_n(0xFFFF_FFFFu32, 29) == 0x436C185Du32);
    assert(crc_shift_n(0xFFFF_FFFFu32, 30) == 0xCC0E8F0Eu32);
    assert(crc_shift_n(0xFFFF_FFFFu32, 31) == 0x66074787u32);
    assert(crc_shift_n(0xFFFF_FFFFu32, 32) == 0xDEBB20E3u32);
    assert(!0xDEBB_20E3u32 == 0x2144_DF1Cu32) by (bit_vector);
}

/// Register steps lose nothing: only the zero register steps to zero.
proof fn lemma_shift_n_zero(x: u32, n: nat)
    ensures
        crc_shift_n(x, n) == 0 ==> x == 0,
    decreases n,
{
    if n > 0 {
        let y = crc_shift_n(x, (n - 1) as nat);
        assert(crc_shift(y) == 0 ==> y == 0) by (bit_vector);
        lemma_shift_n_zero(x, (n - 1) as nat);
    }
}

/// Feeding the same bytes into two registers keeps their difference moving
/// by register steps alone.
proof fn lemma_feed_diff(x: u32, y: u32, s: Seq<u8>)
    ensures
        crc_feed(x, s) ^ crc_feed(y, s) == crc_shift_n(x ^ y, 8 * s.len()),
    decreases s.len(),
{
    if s.len() == 0 {
        assert(crc_shift_n(x ^ y, 0) == x ^ y);
    } else {
        let t = s.drop_last();
        let b = s.last() as u32;
        lemma_feed_diff(x, y, t);
        let fx = crc_feed(x, t);
        let fy = crc_feed(y, t);
        lemma_shift_n_xor(fx ^ b, fy ^ b, 8);
        assert((fx ^ b) ^ (fy ^ b) == fx ^ fy) by (bit_vector);
        lemma_shift_n_add(x ^ y, 8 * t.len(), 8);
        assert(8 * t.len() + 8 == 8 * s.len());
    }
}

/// CRC-32 catches every change of a single byte: two messages that differ
/// in exactly one byte have different CRC-32s.
pub proof fn lemma_crc32_detects_byte_change(s1: Seq<u8>, b1: u8, b2: u8, s2: Seq<u8>)
    requires
        b1 != b2,
    ensures
        spec_crc32(s1.push(b1) + s2) != spec_crc32(s1.push(b2) + s2),
{
    let r = crc_feed(0xFFFF_FFFFu32, s1);
    let x = crc_feed(0xFFFF_FFFFu32, s1.push(b1));
    let y = crc_feed(0xFFFF_FFFFu32, s1.push(b2));
    lemma_feed_push(0xFFFF_FFFFu32, s1, b1);
    lemma_feed_push(0xFFFF_FFFFu32, s1, b2);
    lemma_shift_n_xor(r ^ (b1 as u32), r ^ (b2 as u32), 8);
    assert((r ^ (b1 as u32)) ^ (r ^ (b2 as u32)) != 0) by (bit_vector)
        requires
            b1 != b2,
    ;
    lemma_shift_n_zero((r ^ (b1 as u32)) ^ (r ^ (b2 as u32)), 8);
    lemma_feed_split(0xFFFF_FFFFu32, s1.push(b1), s2);
    lemma_feed_split(0xFFFF_FFFFu32, s1.push(b2), s2);
    lemma_feed_diff(x, y, s2);
    lemma_shift_n_zero(x ^ y, 8 * s2.len());
    let fx = crc_feed(x, s2);
    let fy = crc_feed(y, s2);
    assert(fx ^ fy != 0 ==> !fx != !fy) by (bit_vector);
}

/// Feeding `s + t` is feeding `s`, then `t`.
proof fn lemma_feed_split(init: u32, s: Seq<u8>, t: Seq<u8>)
    ensures
        crc_feed(init, s + t) == crc_feed(crc_feed(init, s), t),
    decreases t.len(),
{
    if t.len() == 0 {
        assert(s + t =~= s);
    } else {
        lemma_feed_split(init, s, t.drop_last());
        assert((s + t).drop_last() =~= s + t.drop_last());
    }
}

} // verus!
