//! Packing bytes into bits (most significant bit first) and back.

use vstd::prelude::*;

verus! {

/// Bit `j` of byte `b`, counted from the most significant bit (`j == 0`)
/// down to the least significant one (`j == 7`).
pub open spec fn bit_of(b: u8, j: int) -> u8 {
    (b >> ((7 - j) as u8)) & 1u8
}

/// The bits of `data`, eight per byte, most significant bit first.
pub open spec fn spec_bytes_to_bits(data: Seq<u8>) -> Seq<u8> {
    Seq::new(8 * data.len(), |k: int| bit_of(data[k / 8], k % 8))
}

/// The byte made of a chunk of at most eight bits: the chunk's element `i`
/// (only its lowest bit counts) lands at bit position `7 - i`, so a short
/// chunk fills the high bits and leaves the low ones clear.
pub open spec fn pack_bits(chunk: Seq<u8>) -> u8
    decreases chunk.len(),
{
    if chunk.len() == 0 {
        0u8
    } else {
        pack_bits(chunk.drop_last()) | ((chunk.last() & 1u8) << ((7 - (chunk.len() - 1)) as u8))
    }
}

/// Number of bytes that `n` bits fill: one per started group of eight.
pub open spec fn num_chunks(n: nat) -> nat {
    if n % 8 == 0 {
        n / 8
    } else {
        n / 8 + 1
    }
}

/// Chunk `i` of `bits`: elements `8 * i` up to, not including,
/// `min(8 * i + 8, bits.len())`.
pub open spec fn chunk_of(bits: Seq<u8>, i: int) -> Seq<u8> {
    bits.subrange(8 * i, if 8 * i + 8 <= bits.len() { 8 * i + 8 } else { bits.len() as int })
}

/// The bytes that `bits` pack into, eight bits per byte, the last byte
/// made of what is left.
pub open spec fn spec_bits_to_bytes(bits: Seq<u8>) -> Seq<u8> {
    Seq::new(num_chunks(bits.len()), |i: int| pack_bits(chunk_of(bits, i)))
}

/// Splits every byte of `data` into its eight bits, most significant first.
pub fn bytes_to_bits(data: &[u8]) -> (bits: Vec<u8>)
    requires
        8 * data.len() <= usize::MAX,
    ensures
        bits@ == spec_bytes_to_bits(data@),
{
    let mut bits: Vec<u8> = Vec::with_capacity(data.len() * 8);
    let mut i: usize = 0;
    while i < data.len()
        invariant
            i <= data.len(),
            bits@ =~= spec_bytes_to_bits(data@.take(i as int)),
        decreases data.len() - i,
    {
        let byte = data[i];
        let mut k: usize = 0;
        while k < 8
            invariant
                i < data.len(),
                byte == data@[i as int],
                k <= 8,
                bits@.len() == 8 * i + k,
                forall|m: int| 0 <= m < 8 * i ==> #[trigger] bits@[m] == spec_bytes_to_bits(data@.take(i as int))[m],
                forall|m: int| 0 <= m < k ==> #[trigger] bits@[8 * i + m] == bit_of(byte, m),
            decreases 8 - k,
        {
            let shift: u8 = (7 - k) as u8;
            bits.push((byte >> shift) & 1);
            k = k + 1;
        }
        proof {
            let next = spec_bytes_to_bits(data@.take(i + 1));
            assert forall|m: int| 0 <= m < 8 * (i + 1) implies #[trigger] bits@[m] == next[m] by {
                if m < 8 * i {
                    assert(m / 8 < i);
                } else {
                    let r = m - 8 * i;
                    assert(m / 8 == i);
                    assert(m % 8 == r);
                    assert(bits@[8 * i + r] == bit_of(byte, r));
                }
            }
        }
        i = i + 1;
    }
    assert(data@.take(data.len() as int) =~= data@);
    bits
}

/// Packs `bits` into bytes, eight bits per byte, most significant first;
/// a last group of fewer than eight bits fills the high bits of the last
/// byte. Only the lowest bit of each element counts.
pub fn bits_to_bytes(bits: &[u8]) -> (bytes: Vec<u8>)
    ensures
        bytes@ == spec_bits_to_bytes(bits@),
{
    let len = bits.len();
    let n_chunks: usize = if len % 8 == 0 { len / 8 } else { len / 8 + 1 };
    let mut bytes: Vec<u8> = Vec::with_capacity(n_chunks);
    let mut c: usize = 0;
    while c < n_chunks
        invariant
            len == bits@.len(),
            n_chunks == num_chunks(len as nat),
            c <= n_chunks,
            bytes@.len() == c,
            forall|i: int| 0 <= i < c ==> #[trigger] bytes@[i] == pack_bits(chunk_of(bits@, i)),
        decreases n_chunks - c,
    {
        let start: usize = c * 8;
        let end: usize = if len - start < 8 { len } else { start + 8 };
        let mut byte: u8 = 0;
        let mut j: usize = start;
        while j < end
            invariant
                len == bits@.len(),
                start <= j <= end <= len,
                end - start <= 8,
                byte == pack_bits(bits@.subrange(start as int, j as int)),
            decreases end - j,
        {
            assert(bits@.subrange(start as int, j + 1).drop_last() =~= bits@.subrange(start as int, j as int));
            let shift: u8 = (7 - (j - start)) as u8;
            byte = byte | ((bits[j] & 1) << shift);
            j = j + 1;
        }
        bytes.push(byte);
        c = c + 1;
    }
    assert(bytes@ =~= spec_bits_to_bytes(bits@));
    bytes
}

/// Adding one element to a chunk ORs that element's bit into the byte.
proof fn lemma_pack_step(s: Seq<u8>, k: int)
    requires
        0 <= k < s.len(),
    ensures
        pack_bits(s.take(k + 1)) == pack_bits(s.take(k)) | ((s[k] & 1u8) << ((7 - k) as u8)),
{
    assert(s.take(k + 1).drop_last() =~= s.take(k));
}

/// The eight bits of a byte pack back into that byte.
pub proof fn lemma_pack_byte_bits(b: u8)
    ensures
        pack_bits(Seq::new(8, |j: int| bit_of(b, j))) == b,
{
    let s = Seq::new(8, |j: int| bit_of(b, j));
    assert(s.take(0) =~= Seq::<u8>::empty());
    lemma_pack_step(s, 0);
    lemma_pack_step(s, 1);
    lemma_pack_step(s, 2);
    lemma_pack_step(s, 3);
    lemma_pack_step(s, 4);
    lemma_pack_step(s, 5);
    lemma_pack_step(s, 6);
    lemma_pack_step(s, 7);
    assert(s.take(8) =~= s);
    assert(
        0u8 | ((((b >> 7u8) & 1u8) & 1u8) << 7u8) | ((((b >> 6u8) & 1u8) & 1u8) << 6u8)
            | ((((b >> 5u8) & 1u8) & 1u8) << 5u8) | ((((b >> 4u8) & 1u8) & 1u8) << 4u8)
            | ((((b >> 3u8) & 1u8) & 1u8) << 3u8) | ((((b >> 2u8) & 1u8) & 1u8) << 2u8)
            | ((((b >> 1u8) & 1u8) & 1u8) << 1u8) | ((((b >> 0u8) & 1u8) & 1u8) << 0u8) == b
    ) by (bit_vector);
}

/// The bits of a slice of bytes are the matching slice of the bits.
pub proof fn lemma_bits_subrange(x: Seq<u8>, a: int, b: int)
    requires
        0 <= a <= b <= x.len(),
    ensures
        spec_bytes_to_bits(x).subrange(8 * a, 8 * b) =~= spec_bytes_to_bits(x.subrange(a, b)),
{
    let lhs = spec_bytes_to_bits(x).subrange(8 * a, 8 * b);
    let rhs = spec_bytes_to_bits(x.subrange(a, b));
    assert forall|k: int| 0 <= k < 8 * (b - a) implies #[trigger] lhs[k] == rhs[k] by {
        assert((8 * a + k) / 8 == a + k / 8);
        assert((8 * a + k) % 8 == k % 8);
    }
}

/// Packing the bits of some bytes gives those bytes back.
pub proof fn lemma_bits_roundtrip(x: Seq<u8>)
    ensures
        spec_bits_to_bytes(spec_bytes_to_bits(x)) =~= x,
{
    let bits = spec_bytes_to_bits(x);
    assert(num_chunks(bits.len()) == x.len());
    assert forall|i: int| 0 <= i < x.len() implies #[trigger] spec_bits_to_bytes(bits)[i] == x[i] by {
        let chunk = chunk_of(bits, i);
        let expect = Seq::new(8, |j: int| bit_of(x[i], j));
        assert forall|j: int| 0 <= j < 8 implies #[trigger] chunk[j] == expect[j] by {
            assert((8 * i + j) / 8 == i);
            assert((8 * i + j) % 8 == j);
        }
        assert(chunk =~= expect);
        lemma_pack_byte_bits(x[i]);
    }
}

/// Packing bits whose first part fills whole bytes packs the two parts
/// separately.
pub proof fn lemma_pack_concat(x: Seq<u8>, y: Seq<u8>)
    requires
        x.len() % 8 == 0,
    ensures
        spec_bits_to_bytes(x + y) =~= spec_bits_to_bytes(x) + spec_bits_to_bytes(y),
{
    let xy = x + y;
    let nx = x.len() / 8;
    assert(num_chunks(xy.len()) == nx + num_chunks(y.len()));
    assert forall|i: int| 0 <= i < num_chunks(xy.len()) implies #[trigger] spec_bits_to_bytes(xy)[i]
        == (spec_bits_to_bytes(x) + spec_bits_to_bytes(y))[i] by {
        if i < nx {
            assert(chunk_of(xy, i) =~= chunk_of(x, i));
        } else {
            assert(chunk_of(xy, i) =~= chunk_of(y, i - nx));
        }
    }
}

/// The bits of a byte are 0 or 1, most significant first: the byte is
/// 128 times its first bit plus 64 times its second, and so on.
pub proof fn lemma_bits_value(data: Seq<u8>, i: int)
    requires
        0 <= i < data.len(),
    ensures
        forall|j: int| 0 <= j < 8 ==> #[trigger] spec_bytes_to_bits(data)[8 * i + j] <= 1,
        data[i] as int == 128 * spec_bytes_to_bits(data)[8 * i] + 64 * spec_bytes_to_bits(data)[8 * i + 1] + 32
            * spec_bytes_to_bits(data)[8 * i + 2] + 16 * spec_bytes_to_bits(data)[8 * i + 3] + 8
            * spec_bytes_to_bits(data)[8 * i + 4] + 4 * spec_bytes_to_bits(data)[8 * i + 5] + 2
            * spec_bytes_to_bits(data)[8 * i + 6] + spec_bytes_to_bits(data)[8 * i + 7],
{
    let bits = spec_bytes_to_bits(data);
    let b = data[i];
    assert forall|j: int| 0 <= j < 8 implies bits[8 * i + j] == bit_of(b, j) by {
        assert((8 * i + j) / 8 == i);
        assert((8 * i + j) % 8 == j);
    }
    assert(forall|k: u8| #![trigger (b >> k) & 1u8] (b >> k) & 1u8 <= 1u8) by (bit_vector);
    assert(b as int == 128 * ((b >> 7u8) & 1u8) + 64 * ((b >> 6u8) & 1u8) + 32 * ((b >> 5u8) & 1u8) + 16 * ((b
        >> 4u8) & 1u8) + 8 * ((b >> 3u8) & 1u8) + 4 * ((b >> 2u8) & 1u8) + 2 * ((b >> 1u8) & 1u8) + ((b >> 0u8)
        & 1u8)) by (bit_vector);
}

/// The bits of a concatenation are the concatenation of the bits.
pub proof fn lemma_bits_concat(x: Seq<u8>, y: Seq<u8>)
    ensures
        spec_bytes_to_bits(x + y) =~= spec_bytes_to_bits(x) + spec_bytes_to_bits(y),
{
    let lhs = spec_bytes_to_bits(x + y);
    let rhs = spec_bytes_to_bits(x) + spec_bytes_to_bits(y);
    assert forall|k: int| 0 <= k < 8 * (x.len() + y.len()) implies #[trigger] lhs[k] == rhs[k] by {
        if k >= 8 * x.len() {
            assert((k - 8 * x.len()) / 8 == k / 8 - x.len());
            assert((k - 8 * x.len()) % 8 == k % 8);
        }
    }
}

/// Bit `j` of a chunk as a number, 0 past its end: only the lowest bit of
/// an element counts.
pub open spec fn chunk_bit(chunk: Seq<u8>, j: int) -> int {
    if 0 <= j < chunk.len() {
        (chunk[j] % 2) as int
    } else {
        0
    }
}

/// A zero bit added to a chunk leaves its byte unchanged.
proof fn lemma_pack_push_zero(s: Seq<u8>)
    requires
        s.len() < 8,
    ensures
        pack_bits(s.push(0u8)) == pack_bits(s),
{
    assert(s.push(0u8).drop_last() =~= s);
    let x = pack_bits(s);
    let k = (7 - s.len()) as u8;
    assert(x | ((0u8 & 1u8) << k) == x) by (bit_vector);
}

/// A chunk packs like the same chunk filled up to eight bits with zeros.
proof fn lemma_pack_pad(s: Seq<u8>, n: nat)
    requires
        s.len() <= n <= 8,
    ensures
        pack_bits(s) == pack_bits(s + Seq::new((n - s.len()) as nat, |j: int| 0u8)),
    decreases n - s.len(),
{
    if s.len() < n {
        lemma_pack_push_zero(s);
        lemma_pack_pad(s.push(0u8), n);
        assert(s.push(0u8) + Seq::new((n - s.len() - 1) as nat, |j: int| 0u8) =~= s + Seq::new(
            (n - s.len()) as nat,
            |j: int| 0u8,
        ));
    } else {
        assert(s + Seq::new(0, |j: int| 0u8) =~= s);
    }
}

/// Each packed byte is the chunk read as a binary number, first bit most
/// significant, a short chunk taking the high bits.
pub proof fn lemma_pack_value(bits: Seq<u8>, i: int)
    requires
        0 <= i < num_chunks(bits.len()),
    ensures
        spec_bits_to_bytes(bits)[i] as int == 128 * chunk_bit(chunk_of(bits, i), 0) + 64 * chunk_bit(
            chunk_of(bits, i),
            1,
        ) + 32 * chunk_bit(chunk_of(bits, i), 2) + 16 * chunk_bit(chunk_of(bits, i), 3) + 8 * chunk_bit(
            chunk_of(bits, i),
            4,
        ) + 4 * chunk_bit(chunk_of(bits, i), 5) + 2 * chunk_bit(chunk_of(bits, i), 6) + chunk_bit(
            chunk_of(bits, i),
            7,
        ),
{
    let c = chunk_of(bits, i);
    assert(c.len() <= 8);
    let s = c + Seq::new((8 - c.len()) as nat, |j: int| 0u8);
    lemma_pack_pad(c, 8);
    assert(s.take(0) =~= Seq::<u8>::empty());
    lemma_pack_step(s, 0);
    lemma_pack_step(s, 1);
    lemma_pack_step(s, 2);
    lemma_pack_step(s, 3);
    lemma_pack_step(s, 4);
    lemma_pack_step(s, 5);
    lemma_pack_step(s, 6);
    lemma_pack_step(s, 7);
    assert(s.take(8) =~= s);
    assert forall|j: int| 0 <= j < 8 implies #[trigger] chunk_bit(c, j) == (s[j] & 1u8) as int by {
        let v = s[j];
        assert(v & 1u8 == v % 2) by (bit_vector);
    }
    let (s0, s1, s2, s3, s4, s5, s6, s7) = (s[0], s[1], s[2], s[3], s[4], s[5], s[6], s[7]);
    assert((0u8 | ((s0 & 1u8) << 7u8) | ((s1 & 1u8) << 6u8) | ((s2 & 1u8) << 5u8) | ((s3 & 1u8) << 4u8) | ((s4
        & 1u8) << 3u8) | ((s5 & 1u8) << 2u8) | ((s6 & 1u8) << 1u8) | ((s7 & 1u8) << 0u8)) as int == 128 * (s0
        & 1u8) + 64 * (s1 & 1u8) + 32 * (s2 & 1u8) + 16 * (s3 & 1u8) + 8 * (s4 & 1u8) + 4 * (s5 & 1u8) + 2 * (
    s6 & 1u8) + (s7 & 1u8)) by (bit_vector);
}

} // verus!
