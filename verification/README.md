# gnqim

GN-QIM hides a payload in a grayscale image, one bit per 8×8 block, by
quantizing a power-law transform of the block's DCT coefficient (1,1).

The crate is a Verus library holding the integer side of the scheme, with
its contracts and proofs:

- `src/crc.rs`: CRC-32 (IEEE 802.3) of the payload.
- `src/bits.rs`: bytes to bits and back, most significant bit first; the
  round trip is proved.
- `src/gnqim.rs`: the frame (`GNQM`, length, CRC-32, payload), the bits to
  embed with the capacity check, the reading of a frame back from extracted
  bits with its four errors, and the capacity of an image. A frame read
  back from its own bits gives the payload again.
- `src/blocks.rs`: cutting an image into 8×8 blocks and putting blocks back,
  with the round trip proved.
- `src/measure.rs`: the bit error count and the squared error sum behind the
  bit error rate and the PSNR.

`app/` is the command-line program: image files and JPEG coding, and the
floating-point part of the scheme (DCT, power law, quantization), which it
runs between the library's calls.
