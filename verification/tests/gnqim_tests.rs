use gnqim::bits::{bits_to_bytes, bytes_to_bits};
use gnqim::blocks::{blocks_to_image, image_to_blocks};
use gnqim::crc::crc32;
use gnqim::gnqim::{
    block_grid, capacity, decode_watermark, frame_payload, watermark_bits, EmbedError, ExtractError,
};
use gnqim::measure::{bit_error_count, squared_error_sum};

/// Bits read back from an image of `num_blocks` blocks that carries `bits`
/// in its first blocks and 0 in the others.
fn channel(bits: &[u8], num_blocks: usize) -> Vec<u8> {
    let mut raw = bits.to_vec();
    raw.resize(num_blocks, 0);
    raw
}

#[test]
fn embed_extract_roundtrip() {
    let w = 128;
    let h = 128;
    let payload = b"Hello GN-QIM!";
    let bits = watermark_bits(payload, w, h).unwrap();
    assert_eq!(bits.len(), (12 + payload.len()) * 8);
    let (num_blocks, _) = capacity(w, h);
    let extracted = decode_watermark(&channel(&bits, num_blocks)).unwrap();
    assert_eq!(&extracted, payload);
}

#[test]
fn psnr_identical() {
    let img = vec![128u8; 64];
    let sse = squared_error_sum(&img, &img);
    assert_eq!(sse, 0);
    let mse = sse as f64 / img.len() as f64;
    let psnr = if mse < 1e-10 { 99.99 } else { 10.0 * (255.0 * 255.0 / mse).log10() };
    assert!(psnr > 90.0);
}

#[test]
fn ber_identical() {
    let a = vec![0, 1, 0, 1, 1];
    let (errors, n) = bit_error_count(&a, &a);
    let ber = if n == 0 { 0.0 } else { errors as f64 / n as f64 };
    assert_eq!(ber, 0.0);
}

#[test]
fn crc32_check_value() {
    assert_eq!(crc32(b"123456789"), 0xCBF4_3926);
    assert_eq!(crc32(b""), 0);
    assert_eq!(crc32(b"a"), 0xE8B7_BE43);
}

#[test]
fn bytes_to_bits_msb_first() {
    assert_eq!(bytes_to_bits(&[0xA5, 0x01]), vec![1, 0, 1, 0, 0, 1, 0, 1, 0, 0, 0, 0, 0, 0, 0, 1]);
    assert_eq!(bytes_to_bits(&[]), Vec::<u8>::new());
}

#[test]
fn bits_to_bytes_partial_chunk() {
    assert_eq!(bits_to_bytes(&[1, 1, 1]), vec![0xE0]);
    assert_eq!(bits_to_bytes(&[0, 0, 0, 0, 0, 0, 0, 1, 1]), vec![0x01, 0x80]);
    // Only the lowest bit of each element counts.
    assert_eq!(bits_to_bytes(&[3, 2, 0, 0, 0, 0, 0, 0]), vec![0x80]);
    assert_eq!(bits_to_bytes(&[]), Vec::<u8>::new());
}

#[test]
fn bits_roundtrip() {
    let data = vec![0u8, 0xFF, 0x5A, 0x80, 0x01, 0x37];
    assert_eq!(bits_to_bytes(&bytes_to_bits(&data)), data);
}

#[test]
fn capacity_values() {
    assert_eq!(capacity(128, 128), (256, 20));
    assert_eq!(capacity(100, 50), (72, 0));
    assert_eq!(capacity(7, 1000), (0, 0));
    assert_eq!(capacity(64, 104), (104, 1));
}

#[test]
fn block_grid_crops_to_multiples_of_eight() {
    assert_eq!(block_grid(130, 67), (128, 64));
    assert_eq!(block_grid(8, 7), (8, 0));
}

#[test]
fn frame_layout() {
    let framed = frame_payload(b"ab");
    let crc = crc32(b"ab").to_be_bytes();
    assert_eq!(
        framed,
        vec![b'G', b'N', b'Q', b'M', 0, 0, 0, 2, crc[0], crc[1], crc[2], crc[3], b'a', b'b']
    );
}

#[test]
fn embed_payload_too_large() {
    // 64×64 has 64 blocks; one payload byte needs 104.
    assert_eq!(
        watermark_bits(b"x", 64, 64),
        Err(EmbedError::PayloadTooLarge { needed_bits: 104, num_blocks: 64, max_payload: 0 })
    );
    // 64×104 has 104 blocks: exactly one payload byte fits, two do not.
    assert!(watermark_bits(b"x", 64, 104).is_ok());
    assert_eq!(
        watermark_bits(b"xy", 64, 104),
        Err(EmbedError::PayloadTooLarge { needed_bits: 112, num_blocks: 104, max_payload: 1 })
    );
}

#[test]
fn extract_image_too_small() {
    assert_eq!(decode_watermark(&[0u8; 95]), Err(ExtractError::ImageTooSmall));
}

#[test]
fn extract_invalid_magic() {
    let mut raw = vec![0u8; 200];
    raw[7] = 1;
    assert_eq!(decode_watermark(&raw), Err(ExtractError::InvalidMagic { found: (1, 0, 0, 0) }));
}

#[test]
fn extract_truncated() {
    let bits = watermark_bits(b"0123456789", 200, 200).unwrap();
    assert_eq!(
        decode_watermark(&bits[..150]),
        Err(ExtractError::Truncated { needed_bits: 176, available_bits: 150 })
    );
}

#[test]
fn extract_crc_mismatch() {
    let mut bits = watermark_bits(b"hi", 200, 200).unwrap();
    bits[96] ^= 1; // first payload bit: 'h' (0x68) becomes 0xE8
    let expected = crc32(b"hi");
    let actual = crc32(&[0xE8, b'i']);
    assert_eq!(decode_watermark(&bits), Err(ExtractError::CrcMismatch { expected, actual }));
}

#[test]
fn extract_empty_payload() {
    let bits = watermark_bits(b"", 96, 64).unwrap();
    assert_eq!(decode_watermark(&channel(&bits, 96)), Ok(vec![]));
}

#[test]
fn blocks_roundtrip() {
    let (w, h) = (16usize, 24usize);
    let gray: Vec<u8> = (0..w * h).map(|i| ((i * 7 + 13) % 256) as u8).collect();
    let blocks = image_to_blocks(&gray, w, h);
    assert_eq!(blocks.len(), 6);
    assert_eq!(blocks[1][2][3], gray[2 * w + 8 + 3]);
    assert_eq!(blocks[3][0][0], gray[8 * w + 8]);
    assert_eq!(blocks_to_image(&blocks, w, h), gray);
}

#[test]
fn blocks_uncovered_pixels_are_zero() {
    let (w, h) = (10usize, 9usize);
    let gray: Vec<u8> = (0..w * h).map(|i| (i % 200 + 1) as u8).collect();
    let blocks = image_to_blocks(&gray, w, h);
    assert_eq!(blocks.len(), 1);
    let out = blocks_to_image(&blocks, w, h);
    for i in 0..w * h {
        let (row, col) = (i / w, i % w);
        let expected = if row < 8 && col < 8 { gray[i] } else { 0 };
        assert_eq!(out[i], expected);
    }
}

#[test]
fn bit_errors_over_common_length() {
    assert_eq!(bit_error_count(&[0, 1, 1], &[0, 0, 1, 1]), (1, 3));
    assert_eq!(bit_error_count(&[], &[1]), (0, 0));
}

#[test]
fn squared_error_values() {
    assert_eq!(squared_error_sum(&[0, 10, 255], &[3, 6, 0]), 9 + 16 + 65025);
}
