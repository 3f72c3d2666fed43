//! Cutting a grayscale image into 8×8 blocks and putting blocks back.
//!
//! Blocks are taken row-major over the block grid: block `b` sits in block
//! row `b / (w / 8)` and block column `b % (w / 8)`, where `w` is the row
//! stride of the image.

use vstd::prelude::*;
use vstd::arithmetic::div_mod::{lemma_fundamental_div_mod, lemma_fundamental_div_mod_converse};

verus! {

/// An 8×8 block of pixels, indexed `[row][column]`.
pub type Block = [[u8; 8]; 8];

/// Index, in an image of row stride `w`, of pixel `(r, c)` of block `b`.
pub open spec fn block_pixel(w: int, b: int, r: int, c: int) -> int {
    ((b / (w / 8)) * 8 + r) * w + (b % (w / 8)) * 8 + c
}

/// Index of the block that pixel `i` of an image of row stride `w` falls in.
pub open spec fn pixel_block(w: int, i: int) -> int {
    ((i / w) / 8) * (w / 8) + (i % w) / 8
}

/// Pixel `i` lies in one of the first `n` blocks.
pub open spec fn covered(w: int, n: int, i: int) -> bool {
    (i % w) < 8 * (w / 8) && pixel_block(w, i) < n
}

/// The value that the blocks give pixel `i`, when it is covered.
pub open spec fn block_value(blocks: Seq<Block>, w: int, i: int) -> u8 {
    blocks[pixel_block(w, i)][(i / w) % 8][(i % w) % 8]
}

/// `blocks` are the 8×8 blocks of `gray`, read with row stride `w`, over a
/// grid of `w / 8` by `h / 8` blocks.
pub open spec fn cut_into_blocks(gray: Seq<u8>, w: nat, h: nat, blocks: Seq<Block>) -> bool {
    &&& blocks.len() == (w / 8) * (h / 8)
    &&& forall|b: int, r: int, c: int|
        0 <= b < blocks.len() && 0 <= r < 8 && 0 <= c < 8 ==> #[trigger] blocks[b][r][c]
            == gray[block_pixel(w as int, b, r, c)]
}

/// Every pixel that `image_to_blocks` reads lies inside `gray`.
pub open spec fn image_covers_grid(len: nat, w: nat, h: nat) -> bool {
    w / 8 == 0 || h / 8 == 0 || (8 * (h / 8) - 1) * w + 8 * (w / 8) <= len
}

/// Every pixel of the first `n` blocks lies inside a `w` × `h` image.
pub open spec fn blocks_fit(n: nat, w: nat, h: nat) -> bool {
    n == 0 || (w / 8 > 0 && forall|b: int| 0 <= b < n ==> #[trigger] block_pixel(w as int, b, 7, 7) < w * h)
}

/// The `w` × `h` image with the blocks in place and every pixel that no
/// block covers left at 0.
pub open spec fn spec_blocks_to_image(blocks: Seq<Block>, w: nat, h: nat) -> Seq<u8> {
    Seq::new(
        w * h,
        |i: int|
            if covered(w as int, blocks.len() as int, i) {
                block_value(blocks, w as int, i)
            } else {
                0u8
            },
    )
}

/// Where blocks sit: pixel `(r, c)` of block `b` is the pixel at image row
/// `(b / bw) * 8 + r` and column `(b % bw) * 8 + c`, where `bw = w / 8`
/// blocks fill a row of stride `w`; that pixel lies within the columns that
/// blocks cover, and it belongs to block `b`.
pub proof fn lemma_block_position(w: int, b: int, r: int, c: int)
    requires
        w / 8 > 0,
        0 <= b,
        0 <= r < 8,
        0 <= c < 8,
    ensures
        block_pixel(w, b, r, c) / w == (b / (w / 8)) * 8 + r,
        block_pixel(w, b, r, c) % w == (b % (w / 8)) * 8 + c,
        pixel_block(w, block_pixel(w, b, r, c)) == b,
        (block_pixel(w, b, r, c) / w) % 8 == r,
        (block_pixel(w, b, r, c) % w) % 8 == c,
        (block_pixel(w, b, r, c) % w) < 8 * (w / 8),
        block_pixel(w, b, r, c) >= 0,
{
    let bw = w / 8;
    let row = (b / bw) * 8 + r;
    let col = (b % bw) * 8 + c;
    lemma_fundamental_div_mod(b, bw);
    assert(0 <= b % bw < bw);
    assert(b / bw >= 0) by (nonlinear_arith)
        requires
            b >= 0,
            bw > 0,
    ;
    assert(8 * bw <= w);
    assert(col < w);
    assert(row >= 0);
    assert(row * w >= 0) by (nonlinear_arith)
        requires
            row >= 0,
            w >= 0,
    ;
    lemma_fundamental_div_mod_converse(block_pixel(w, b, r, c), w, row, col);
    lemma_fundamental_div_mod_converse(row, 8, b / bw, r);
    lemma_fundamental_div_mod_converse(col, 8, b % bw, c);
    assert((b / bw) * bw + b % bw == b) by (nonlinear_arith)
        requires
            b == bw * (b / bw) + b % bw,
    ;
}

/// A pixel within the columns that blocks cover is pixel
/// `((i / w) % 8, (i % w) % 8)` of block `pixel_block(w, i)`.
proof fn lemma_pixel_block_inverse(w: int, i: int)
    requires
        w / 8 > 0,
        0 <= i,
        (i % w) < 8 * (w / 8),
    ensures
        pixel_block(w, i) >= 0,
        i == block_pixel(w, pixel_block(w, i), (i / w) % 8, (i % w) % 8),
{
    let bw = w / 8;
    let row = i / w;
    let col = i % w;
    lemma_fundamental_div_mod(i, w);
    lemma_fundamental_div_mod(row, 8);
    lemma_fundamental_div_mod(col, 8);
    assert(row >= 0);
    assert(col / 8 < bw);
    assert(row / 8 >= 0);
    let p = pixel_block(w, i);
    assert(p >= 0) by (nonlinear_arith)
        requires
            p == (row / 8) * bw + col / 8,
            row / 8 >= 0,
            bw > 0,
            col / 8 >= 0,
    ;
    lemma_fundamental_div_mod_converse(p, bw, row / 8, col / 8);
    assert(i == (row * w) + col) by (nonlinear_arith)
        requires
            i == w * row + col,
    ;
    assert(row == (row / 8) * 8 + row % 8);
    assert(col == (col / 8) * 8 + col % 8);
}

/// Pixel `(r, c)` of a block lies no further into the image than its
/// pixel `(7, 7)`.
proof fn lemma_block_pixel_le_last(w: int, b: int, r: int, c: int)
    requires
        w / 8 > 0,
        0 <= b,
        0 <= r < 8,
        0 <= c < 8,
    ensures
        block_pixel(w, b, r, c) <= block_pixel(w, b, 7, 7),
{
    let bw = w / 8;
    let q = b / bw;
    assert(q >= 0) by (nonlinear_arith)
        requires
            q == b / bw,
            b >= 0,
            bw > 0,
    ;
    assert((q * 8 + r) * w <= (q * 8 + 7) * w) by (nonlinear_arith)
        requires
            r <= 7,
            w >= 0,
            q >= 0,
    ;
}

/// The eight pixels of `gray` from `start` on.
fn read_row(gray: &[u8], start: usize) -> (row: [u8; 8])
    requires
        start + 8 <= gray.len(),
    ensures
        forall|c: int| 0 <= c < 8 ==> #[trigger] row[c] == gray@[start + c],
{
    [
        gray[start],
        gray[start + 1],
        gray[start + 2],
        gray[start + 3],
        gray[start + 4],
        gray[start + 5],
        gray[start + 6],
        gray[start + 7],
    ]
}

/// Cuts `gray`, read with row stride `w`, into the `(w / 8) * (h / 8)`
/// blocks of its block grid, row by row.
pub fn image_to_blocks(gray: &[u8], w: usize, h: usize) -> (blocks: Vec<Block>)
    requires
        image_covers_grid(gray.len() as nat, w as nat, h as nat),
        (w / 8) * (h / 8) <= usize::MAX,
    ensures
        cut_into_blocks(gray@, w as nat, h as nat, blocks@),
{
    let bw = w / 8;
    let bh = h / 8;
    let mut blocks: Vec<Block> = Vec::with_capacity(bw * bh);
    let mut by: usize = 0;
    while by < bh
        invariant
            bw == w / 8,
            bh == h / 8,
            by <= bh,
            image_covers_grid(gray.len() as nat, w as nat, h as nat),
            bw * bh <= usize::MAX,
            blocks@.len() == by * bw,
            forall|b: int, r: int, c: int|
                0 <= b < blocks@.len() && 0 <= r < 8 && 0 <= c < 8 ==> #[trigger] blocks@[b][r][c]
                    == gray@[block_pixel(w as int, b, r, c)],
        decreases bh - by,
    {
        let mut bx: usize = 0;
        while bx < bw
            invariant
                bw == w / 8,
                bh == h / 8,
                by < bh,
                bx <= bw,
                image_covers_grid(gray.len() as nat, w as nat, h as nat),
                bw * bh <= usize::MAX,
                blocks@.len() == by * bw + bx,
                forall|b: int, r: int, c: int|
                    0 <= b < blocks@.len() && 0 <= r < 8 && 0 <= c < 8 ==> #[trigger] blocks@[b][r][c]
                        == gray@[block_pixel(w as int, b, r, c)],
            decreases bw - bx,
        {
            proof {
                assert((by * 8 + 7) * w <= (8 * bh - 1) * w) by (nonlinear_arith)
                    requires
                        by < bh,
                ;
                assert(by * 8 * w + 7 * w == (by * 8 + 7) * w) by (nonlinear_arith);
                assert((by * bw + bx) < bw * bh) by (nonlinear_arith)
                    requires
                        by < bh,
                        bx < bw,
                ;
            }
            let base: usize = by * 8 * w + bx * 8;
            let row0 = read_row(gray, base);
            let row1 = read_row(gray, base + w);
            let row2 = read_row(gray, base + 2 * w);
            let row3 = read_row(gray, base + 3 * w);
            let row4 = read_row(gray, base + 4 * w);
            let row5 = read_row(gray, base + 5 * w);
            let row6 = read_row(gray, base + 6 * w);
            let row7 = read_row(gray, base + 7 * w);
            let block: Block = [row0, row1, row2, row3, row4, row5, row6, row7];
            proof {
                let b = (by * bw + bx) as int;
                lemma_fundamental_div_mod_converse(b, bw as int, by as int, bx as int);
                assert forall|r: int, c: int| 0 <= r < 8 && 0 <= c < 8 implies #[trigger] block[r][c]
                    == gray@[block_pixel(w as int, b, r, c)] by {
                    assert(block[r][c] == gray@[base + r * w + c]) by {
                        assert(block@ =~= seq![row0, row1, row2, row3, row4, row5, row6, row7]);
                        if r == 0 {
                            assert(row0[c] == gray@[base + c]);
                            assert(block[r] == row0);
                            assert(r * w == 0 * w);
                        } else if r == 1 {
                            assert(row1[c] == gray@[base + w + c]);
                            assert(block[r] == row1);
                            assert(r * w == 1 * w);
                        } else if r == 2 {
                            assert(row2[c] == gray@[base + 2 * w + c]);
                            assert(block[r] == row2);
                            assert(r * w == 2 * w);
                        } else if r == 3 {
                            assert(row3[c] == gray@[base + 3 * w + c]);
                            assert(block[r] == row3);
                            assert(r * w == 3 * w);
                        } else if r == 4 {
                            assert(row4[c] == gray@[base + 4 * w + c]);
                            assert(block[r] == row4);
                            assert(r * w == 4 * w);
                        } else if r == 5 {
                            assert(row5[c] == gray@[base + 5 * w + c]);
                            assert(block[r] == row5);
                            assert(r * w == 5 * w);
                        } else if r == 6 {
                            assert(row6[c] == gray@[base + 6 * w + c]);
                            assert(block[r] == row6);
                            assert(r * w == 6 * w);
                        } else {
                            assert(row7[c] == gray@[base + 7 * w + c]);
                            assert(block[r] == row7);
                            assert(r * w == 7 * w);
                        }
                    }
                    assert(block_pixel(w as int, b, r, c) == (by * 8 + r) * w + bx * 8 + c);
                    assert((by * 8 + r) * w == by * 8 * w + r * w) by (nonlinear_arith);
                }
            }
            blocks.push(block);
            bx = bx + 1;
        }
        assert(by * bw + bw == (by + 1) * bw) by (nonlinear_arith);
        by = by + 1;
    }
    assert(bh * bw == bw * bh) by (nonlinear_arith);
    blocks
}

/// Block indices are never negative.
proof fn lemma_pixel_block_nonneg(w: int, i: int)
    requires
        w > 0,
        i >= 0,
    ensures
        pixel_block(w, i) >= 0,
{
    let q = (i / w) / 8;
    assert(i / w >= 0);
    assert(q >= 0);
    assert(q * (w / 8) >= 0) by (nonlinear_arith)
        requires
            q >= 0,
            w > 0,
    ;
}

/// Pixel `i` has been written once blocks `0..k` and, of block `k`, the
/// pixels before `(r, c)` in row-major order are in place.
spec fn pixel_filled(w: int, k: int, r: int, c: int, i: int) -> bool {
    ||| covered(w, k, i)
    ||| {
        &&& pixel_block(w, i) == k
        &&& (i % w) < 8 * (w / 8)
        &&& ((i / w) % 8 < r || ((i / w) % 8 == r && (i % w) % 8 < c))
    }
}

/// `out` holds the pixels written so far and 0 elsewhere.
spec fn placed_so_far(out: Seq<u8>, blocks: Seq<Block>, w: int, n: int, k: int, r: int, c: int) -> bool {
    &&& out.len() == n
    &&& forall|i: int|
        0 <= i < n ==> #[trigger] out[i] == (if pixel_filled(w, k, r, c, i) {
            block_value(blocks, w, i)
        } else {
            0u8
        })
}

/// Puts `blocks` into a `w` × `h` image: block `b` goes to block row
/// `b / (w / 8)` and block column `b % (w / 8)`; pixels that no block
/// covers are 0.
pub fn blocks_to_image(blocks: &[Block], w: usize, h: usize) -> (out: Vec<u8>)
    requires
        w * h <= usize::MAX,
        blocks_fit(blocks.len() as nat, w as nat, h as nat),
    ensures
        out@ == spec_blocks_to_image(blocks@, w as nat, h as nat),
{
    let bw = w / 8;
    let ghost n = (w * h) as int;
    let mut out: Vec<u8> = vec![0u8; w * h];
    proof {
        assert forall|i: int| 0 <= i < n implies #[trigger] out@[i] == (if pixel_filled(w as int, 0, 0, 0, i) {
            block_value(blocks@, w as int, i)
        } else {
            0u8
        }) by {
            if w > 0 {
                lemma_pixel_block_nonneg(w as int, i);
            }
        }
    }
    let mut k: usize = 0;
    while k < blocks.len()
        invariant
            bw == w / 8,
            n == w * h,
            k <= blocks.len(),
            w * h <= usize::MAX,
            blocks_fit(blocks.len() as nat, w as nat, h as nat),
            placed_so_far(out@, blocks@, w as int, n, k as int, 0, 0),
        decreases blocks.len() - k,
    {
        let by = k / bw;
        let bx = k % bw;
        let block: Block = blocks[k];
        let mut r: usize = 0;
        while r < 8
            invariant
                bw == w / 8,
                bw > 0,
                n == w * h,
                k < blocks.len(),
                by == k / bw,
                bx == k % bw,
                block == blocks@[k as int],
                r <= 8,
                w * h <= usize::MAX,
                blocks_fit(blocks.len() as nat, w as nat, h as nat),
                placed_so_far(out@, blocks@, w as int, n, k as int, r as int, 0),
            decreases 8 - r,
        {
            let mut c: usize = 0;
            while c < 8
                invariant
                    bw == w / 8,
                    bw > 0,
                    n == w * h,
                    k < blocks.len(),
                    by == k / bw,
                    bx == k % bw,
                    block == blocks@[k as int],
                    r < 8,
                    c <= 8,
                    w * h <= usize::MAX,
                    blocks_fit(blocks.len() as nat, w as nat, h as nat),
                    placed_so_far(out@, blocks@, w as int, n, k as int, r as int, c as int),
                decreases 8 - c,
            {
                let ghost j = block_pixel(w as int, k as int, r as int, c as int);
                proof {
                    lemma_block_position(w as int, k as int, r as int, c as int);
                    lemma_block_pixel_le_last(w as int, k as int, r as int, c as int);
                    assert(block_pixel(w as int, k as int, 7, 7) < w * h);
                    assert((by * 8 + r) * w + bx * 8 + c == j);
                    assert((by * 8 + r) * w == by * 8 * w + r * w) by (nonlinear_arith);
                    assert(by * 8 * w >= 0) by (nonlinear_arith);
                    assert(r * w >= 0) by (nonlinear_arith);
                }
                let idx: usize = by * 8 * w + r * w + bx * 8 + c;
                let ghost prev = out@;
                out.set(idx, block[r][c]);
                proof {
                    assert forall|i: int| 0 <= i < n implies #[trigger] out@[i] == (if pixel_filled(
                        w as int,
                        k as int,
                        r as int,
                        c + 1,
                        i,
                    ) {
                        block_value(blocks@, w as int, i)
                    } else {
                        0u8
                    }) by {
                        if i != j {
                            let in_block = pixel_block(w as int, i) == k && (i % w as int) < 8 * bw;
                            if in_block && (i / w as int) % 8 == r && (i % w as int) % 8 == c {
                                lemma_pixel_block_inverse(w as int, i);
                            }
                            assert(out@[i] == prev[i]);
                        }
                    }
                }
                c = c + 1;
            }
            proof {
                assert forall|i: int| 0 <= i < n implies #[trigger] out@[i] == (if pixel_filled(
                    w as int,
                    k as int,
                    r + 1,
                    0,
                    i,
                ) {
                    block_value(blocks@, w as int, i)
                } else {
                    0u8
                }) by {
                    assert(pixel_filled(w as int, k as int, r + 1, 0, i) == pixel_filled(
                        w as int,
                        k as int,
                        r as int,
                        8,
                        i,
                    ));
                }
            }
            r = r + 1;
        }
        proof {
            assert forall|i: int| 0 <= i < n implies #[trigger] out@[i] == (if pixel_filled(
                w as int,
                k + 1,
                0,
                0,
                i,
            ) {
                block_value(blocks@, w as int, i)
            } else {
                0u8
            }) by {
                assert(i / w as int >= 0);
                assert((i / w as int) % 8 < 8);
                assert(pixel_filled(w as int, k + 1, 0, 0, i) == pixel_filled(w as int, k as int, 8, 0, i));
            }
        }
        k = k + 1;
    }
    assert(out@ =~= spec_blocks_to_image(blocks@, w as nat, h as nat));
    out
}

/// Putting back the blocks that an image was cut into gives back every
/// pixel of the block grid and 0 in the columns and rows that no whole
/// block covers; when both sides are multiples of 8, that is the image
/// itself.
pub proof fn lemma_blocks_roundtrip(gray: Seq<u8>, w: nat, h: nat, blocks: Seq<Block>)
    requires
        image_covers_grid(gray.len(), w, h),
        cut_into_blocks(gray, w, h, blocks),
    ensures
        forall|i: int|
            0 <= i < w * h ==> #[trigger] spec_blocks_to_image(blocks, w, h)[i] == (if (i % (w as int)) < 8
                * (w / 8) && i / (w as int) < 8 * (h / 8) {
                gray[i]
            } else {
                0u8
            }),
        w % 8 == 0 && h % 8 == 0 && gray.len() >= w * h ==> spec_blocks_to_image(blocks, w, h) =~= gray.take(
            (w * h) as int,
        ),
{
    let img = spec_blocks_to_image(blocks, w, h);
    let bw = (w / 8) as int;
    let bh = (h / 8) as int;
    assert forall|i: int| 0 <= i < w * h implies #[trigger] img[i] == (if (i % (w as int)) < 8 * (w / 8) && i
        / (w as int) < 8 * (h / 8) {
        gray[i]
    } else {
        0u8
    }) by {
        let wi = w as int;
        assert(wi > 0) by (nonlinear_arith)
            requires
                0 <= i < w * h,
                wi == w,
        ;
        let row = i / wi;
        let col = i % wi;
        if col < 8 * bw {
            lemma_pixel_block_inverse(wi, i);
            let p = pixel_block(wi, i);
            assert(col / 8 < bw);
            if row < 8 * bh {
                assert(row / 8 < bh);
                assert(p < bw * bh) by (nonlinear_arith)
                    requires
                        p == (row / 8) * bw + col / 8,
                        0 <= row / 8 < bh,
                        0 <= col / 8 < bw,
                ;
                assert(blocks.len() == bw * bh) by (nonlinear_arith)
                    requires
                        blocks.len() == (w / 8) * (h / 8),
                        bw == w / 8,
                        bh == h / 8,
                ;
                assert(0 <= row % 8 < 8);
                assert(0 <= col % 8 < 8);
                assert(blocks[p][row % 8][col % 8] == gray[block_pixel(wi, p, row % 8, col % 8)]);
            } else {
                assert(row / 8 >= bh);
                assert(p >= bw * bh) by (nonlinear_arith)
                    requires
                        p == (row / 8) * bw + col / 8,
                        row / 8 >= bh,
                        0 <= col / 8,
                        bw > 0,
                ;
                assert(blocks.len() == bw * bh) by (nonlinear_arith)
                    requires
                        blocks.len() == (w / 8) * (h / 8),
                        bw == w / 8,
                        bh == h / 8,
                ;
            }
        }
    }
    if w % 8 == 0 && h % 8 == 0 && gray.len() >= w * h {
        assert forall|i: int| 0 <= i < w * h implies #[trigger] img[i] == gray.take((w * h) as int)[i] by {
            let wi = w as int;
            assert(wi > 0) by (nonlinear_arith)
                requires
                    0 <= i < w * h,
                    wi == w,
            ;
            assert(i % wi < wi);
            assert(i / wi < h) by (nonlinear_arith)
                requires
                    0 <= i < wi * h,
                    wi > 0,
            ;
        }
    }
}

} // verus!
