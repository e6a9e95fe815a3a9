//! The frame codec: etching payload units into blocks, reading them back,
//! the five-word instruction header, and the frame sequencer that turns a
//! payload into an ordered frame list and back.

use vstd::prelude::*;

use vstd::arithmetic::div_mod::lemma_hoist_over_denominator;

use crate::convert::{
    rip_binary_u32, spec_bits_of_bytes, spec_bits_of_words, spec_bytes_of_bits, spec_words_of_bits,
    translate_u32, translate_u8,
};
use crate::settings::{Data, OutputMode, Settings};
use crate::source::{
    block_mean, block_uniform, lemma_px_index_injective, lemma_rect_sum_bounds,
    lemma_uniform_block_mean, px, raw_frame_admissible, rect_sum, row_sum, EmbedSource, RawFrame,
    Size, MAX_DIMENSION,
};
use crate::EtchError;

verus! {

/// Flat position of channel `c` of pixel `(x, y)` stays inside a
/// three-byte-per-pixel buffer of dimensions `w x h`.
proof fn lemma_px_index_bounds(w: int, h: int, x: int, y: int)
    by (nonlinear_arith)
    requires
        0 <= x < w,
        0 <= y < h,
        w <= MAX_DIMENSION,
        h <= MAX_DIMENSION,
    ensures
        0 <= 3 * (y * w + x),
        3 * (y * w + x) + 2 < 3 * w * h,
        3 * w * h <= 0x30000000,
{
}

/// Reads one block back: the unweighted mean of each channel over the
/// `size x size` region anchored at `(x, y)`, or no value when the region
/// lies outside the frame bounds.
pub fn get_pixel(frame: &EmbedSource, x: i32, y: i32) -> (r: Option<(u8, u8, u8)>)
    requires
        frame.wf(),
    ensures
        ({
            let w = frame.frame_size.width as int;
            let h = frame.frame_size.height as int;
            let s = frame.size as int;
            match r {
                Some(rgb) => {
                    &&& 0 <= x && 0 <= y && x + s <= w && y + s <= h
                    &&& rgb.0 == block_mean(frame.image@, w, x as int, y as int, 0, s)
                    &&& rgb.1 == block_mean(frame.image@, w, x as int, y as int, 1, s)
                    &&& rgb.2 == block_mean(frame.image@, w, x as int, y as int, 2, s)
                },
                None => !(0 <= x && 0 <= y && x + s <= w && y + s <= h),
            }
        }),
{
    let w: i32 = frame.frame_size.width;
    let h: i32 = frame.frame_size.height;
    let s: i32 = frame.size;
    if x < 0 || y < 0 || x > w - s || y > h - s {
        return None;
    }
    let ghost img = frame.image@;
    let mut r_sum: u64 = 0;
    let mut g_sum: u64 = 0;
    let mut b_sum: u64 = 0;
    let mut i: i32 = 0;
    while i < s
        invariant
            frame.wf(),
            w == frame.frame_size.width,
            h == frame.frame_size.height,
            s == frame.size,
            img == frame.image@,
            0 <= x,
            0 <= y,
            x + s <= w,
            y + s <= h,
            0 <= i <= s,
            r_sum == rect_sum(img, w as int, x as int, y as int, 0, s as nat, i as nat),
            g_sum == rect_sum(img, w as int, x as int, y as int, 1, s as nat, i as nat),
            b_sum == rect_sum(img, w as int, x as int, y as int, 2, s as nat, i as nat),
            r_sum <= 255 * (s as int) * (i as int),
            g_sum <= 255 * (s as int) * (i as int),
            b_sum <= 255 * (s as int) * (i as int),
        decreases s - i,
    {
        let mut j: i32 = 0;
        let row_r0 = r_sum;
        let row_g0 = g_sum;
        let row_b0 = b_sum;
        while j < s
            invariant
                frame.wf(),
                w == frame.frame_size.width,
                h == frame.frame_size.height,
                s == frame.size,
                img == frame.image@,
                0 <= x,
                0 <= y,
                x + s <= w,
                y + s <= h,
                0 <= i < s,
                0 <= j <= s,
                row_r0 == rect_sum(img, w as int, x as int, y as int, 0, s as nat, i as nat),
                row_g0 == rect_sum(img, w as int, x as int, y as int, 1, s as nat, i as nat),
                row_b0 == rect_sum(img, w as int, x as int, y as int, 2, s as nat, i as nat),
                r_sum == row_r0 + row_sum(img, w as int, x as int, (y + i) as int, 0, j as nat),
                g_sum == row_g0 + row_sum(img, w as int, x as int, (y + i) as int, 1, j as nat),
                b_sum == row_b0 + row_sum(img, w as int, x as int, (y + i) as int, 2, j as nat),
                row_r0 <= 255 * (s as int) * (i as int),
                row_g0 <= 255 * (s as int) * (i as int),
                row_b0 <= 255 * (s as int) * (i as int),
                r_sum <= row_r0 + 255 * (j as int),
                g_sum <= row_g0 + 255 * (j as int),
                b_sum <= row_b0 + 255 * (j as int),
            decreases s - j,
        {
            proof {
                lemma_px_index_bounds(w as int, h as int, (x + j) as int, (y + i) as int);
                crate::source::lemma_row_sum_bounds(
                    img,
                    w as int,
                    x as int,
                    (y + i) as int,
                    0,
                    j as nat,
                );
                assert(255 * (s as int) * (i as int) <= 255 * 16384 * 16384) by (nonlinear_arith)
                    requires
                        0 <= s <= 16384,
                        0 <= i <= 16384,
                ;
            }
            let idx: usize = 3 * (((y + i) as usize) * (w as usize) + ((x + j) as usize));
            let pr: u8 = frame.image[idx];
            let pg: u8 = frame.image[idx + 1];
            let pb: u8 = frame.image[idx + 2];
            r_sum = r_sum + (pr as u64);
            g_sum = g_sum + (pg as u64);
            b_sum = b_sum + (pb as u64);
            proof {
                assert(pr == px(img, w as int, (x + j) as int, (y + i) as int, 0));
                assert(pg == px(img, w as int, (x + j) as int, (y + i) as int, 1));
                assert(pb == px(img, w as int, (x + j) as int, (y + i) as int, 2));
            }
            j = j + 1;
        }
        proof {
            assert(255 * (s as int) * (i as int) + 255 * (s as int) == 255 * (s as int) * ((i
                + 1) as int)) by (nonlinear_arith);
        }
        i = i + 1;
    }
    proof {
        assert((s as int) * (s as int) >= 1 && (s as int) * (s as int) <= 16384 * 16384)
            by (nonlinear_arith)
            requires
                1 <= s <= 16384,
        ;
        lemma_rect_sum_bounds(img, w as int, x as int, y as int, 0, s as nat, s as nat);
        lemma_rect_sum_bounds(img, w as int, x as int, y as int, 1, s as nat, s as nat);
        lemma_rect_sum_bounds(img, w as int, x as int, y as int, 2, s as nat, s as nat);
        assert(255 * (s as nat) * (s as nat) == 255 * ((s as int) * (s as int))) by (nonlinear_arith)
            requires
                s >= 1,
        ;
        assert(r_sum as int / ((s as int) * (s as int)) <= 255 && g_sum as int / ((s as int) * (
        s as int)) <= 255 && b_sum as int / ((s as int) * (s as int)) <= 255 && r_sum as int / ((
        s as int) * (s as int)) >= 0 && g_sum as int / ((s as int) * (s as int)) >= 0 && b_sum as int
            / ((s as int) * (s as int)) >= 0) by (nonlinear_arith)
            requires
                (s as int) * (s as int) >= 1,
                0 <= r_sum <= 255 * ((s as int) * (s as int)),
                0 <= g_sum <= 255 * ((s as int) * (s as int)),
                0 <= b_sum <= 255 * ((s as int) * (s as int)),
        ;
    }
    let d: u64 = (s as u64) * (s as u64);
    let r_avg: u8 = (r_sum / d) as u8;
    let g_avg: u8 = (g_sum / d) as u8;
    let b_avg: u8 = (b_sum / d) as u8;
    Some((r_avg, g_avg, b_avg))
}

/// Etches one block: fills every pixel of the `size x size` region anchored
/// at `(x, y)` with the uniform colour `(r, g, b)`; no pixel outside the
/// region changes.
pub fn etch_pixel(frame: &mut EmbedSource, x: i32, y: i32, r: u8, g: u8, b: u8)
    requires
        old(frame).wf(),
        0 <= x,
        0 <= y,
        x + old(frame).size <= old(frame).frame_size.width,
        y + old(frame).size <= old(frame).frame_size.height,
    ensures
        final(frame).wf(),
        final(frame).size == old(frame).size,
        final(frame).frame_size == old(frame).frame_size,
        final(frame).actual_size == old(frame).actual_size,
        ({
            let w = old(frame).frame_size.width as int;
            let h = old(frame).frame_size.height as int;
            let s = old(frame).size as int;
            &&& block_uniform(final(frame).image@, w, x as int, y as int, 0, s, r)
            &&& block_uniform(final(frame).image@, w, x as int, y as int, 1, s, g)
            &&& block_uniform(final(frame).image@, w, x as int, y as int, 2, s, b)
            &&& forall|xx: int, yy: int, cc: int|
                0 <= xx < w && 0 <= yy < h && 0 <= cc < 3 && !(x <= xx < x + s && y <= yy < y + s)
                    ==> #[trigger] px(final(frame).image@, w, xx, yy, cc) == px(
                    old(frame).image@,
                    w,
                    xx,
                    yy,
                    cc,
                )
        }),
{
    let w: i32 = frame.frame_size.width;
    let h: i32 = frame.frame_size.height;
    let s: i32 = frame.size;
    let ghost img0 = frame.image@;
    let mut i: i32 = 0;
    while i < s
        invariant
            frame.wf(),
            w == frame.frame_size.width,
            h == frame.frame_size.height,
            s == frame.size,
            frame.frame_size == old(frame).frame_size,
            frame.actual_size == old(frame).actual_size,
            img0 == old(frame).image@,
            0 <= x,
            0 <= y,
            x + s <= w,
            y + s <= h,
            0 <= i <= s,
            forall|ii: int, jj: int|
                0 <= ii < i && 0 <= jj < s ==> #[trigger] px(frame.image@, w as int, x + jj, y + ii, 0) == r,
            forall|ii: int, jj: int|
                0 <= ii < i && 0 <= jj < s ==> #[trigger] px(frame.image@, w as int, x + jj, y + ii, 1) == g,
            forall|ii: int, jj: int|
                0 <= ii < i && 0 <= jj < s ==> #[trigger] px(frame.image@, w as int, x + jj, y + ii, 2) == b,
            forall|xx: int, yy: int, cc: int|
                0 <= xx < w && 0 <= yy < h && 0 <= cc < 3 && !(x <= xx < x + s && y <= yy < y + i)
                    ==> #[trigger] px(frame.image@, w as int, xx, yy, cc) == px(
                    img0,
                    w as int,
                    xx,
                    yy,
                    cc,
                ),
        decreases s - i,
    {
        let mut j: i32 = 0;
        while j < s
            invariant
                frame.wf(),
                w == frame.frame_size.width,
                h == frame.frame_size.height,
                s == frame.size,
                frame.frame_size == old(frame).frame_size,
                frame.actual_size == old(frame).actual_size,
                img0 == old(frame).image@,
                0 <= x,
                0 <= y,
                x + s <= w,
                y + s <= h,
                0 <= i < s,
                0 <= j <= s,
                forall|ii: int, jj: int|
                    (0 <= ii < i && 0 <= jj < s) || (ii == i && 0 <= jj < j) ==> #[trigger] px(frame.image@, w as int, x + jj, y + ii, 0) == r,
                forall|ii: int, jj: int|
                    (0 <= ii < i && 0 <= jj < s) || (ii == i && 0 <= jj < j) ==> #[trigger] px(frame.image@, w as int, x + jj, y + ii, 1) == g,
                forall|ii: int, jj: int|
                    (0 <= ii < i && 0 <= jj < s) || (ii == i && 0 <= jj < j) ==> #[trigger] px(frame.image@, w as int, x + jj, y + ii, 2) == b,
                forall|xx: int, yy: int, cc: int|
                    0 <= xx < w && 0 <= yy < h && 0 <= cc < 3 && !(x <= xx < x + s && y <= yy < y
                        + i) && !(yy == y + i && x <= xx < x + j) ==> #[trigger] px(
                        frame.image@,
                        w as int,
                        xx,
                        yy,
                        cc,
                    ) == px(img0, w as int, xx, yy, cc),
            decreases s - j,
        {
            proof {
                lemma_px_index_bounds(w as int, h as int, (x + j) as int, (y + i) as int);
            }
            let ghost img_prev = frame.image@;
            let idx: usize = 3 * (((y + i) as usize) * (w as usize) + ((x + j) as usize));
            frame.image.set(idx, r);
            frame.image.set(idx + 1, g);
            frame.image.set(idx + 2, b);
            proof {
                let wi = w as int;
                let xpix = (x + j) as int;
                let ypix = (y + i) as int;
                assert forall|xx: int, yy: int, cc: int|
                    0 <= xx < wi && 0 <= yy < h as int && 0 <= cc < 3 && !(xx == xpix && yy
                        == ypix) implies #[trigger] px(frame.image@, wi, xx, yy, cc) == px(
                    img_prev,
                    wi,
                    xx,
                    yy,
                    cc,
                ) by {
                    if 3 * (yy * wi + xx) + cc == 3 * (ypix * wi + xpix) || 3 * (yy * wi + xx) + cc
                        == 3 * (ypix * wi + xpix) + 1 || 3 * (yy * wi + xx) + cc == 3 * (ypix * wi
                        + xpix) + 2 {
                        assert(yy * wi + xx == ypix * wi + xpix);
                        lemma_px_index_injective(wi, xx, yy, xpix, ypix);
                        assert(false);
                    }
                    lemma_px_index_bounds(wi, h as int, xx, yy);
                }
                assert(px(frame.image@, wi, xpix, ypix, 0) == r);
                assert(px(frame.image@, wi, xpix, ypix, 1) == g);
                assert(px(frame.image@, wi, xpix, ypix, 2) == b);
            }
            j = j + 1;
        }
        i = i + 1;
    }
}

/// Number of whole blocks per row of the usable rectangle.
pub open spec fn blocks_per_row(w: int, s: int) -> int {
    w / s
}

/// Number of whole blocks in one frame: its capacity in payload blocks.
pub open spec fn block_count(w: int, h: int, s: int) -> int {
    (w / s) * (h / s)
}

/// Column of the anchor pixel of block `k` in row-major block order.
pub open spec fn block_x0(w: int, s: int, k: int) -> int {
    (k % (w / s)) * s
}

/// Row of the anchor pixel of block `k` in row-major block order.
pub open spec fn block_y0(w: int, s: int, k: int) -> int {
    (k / (w / s)) * s
}

/// The bit block `k` decodes to: red-channel mean at or above the threshold.
pub open spec fn frame_bit(img: Seq<u8>, w: int, h: int, s: int, k: int) -> bool {
    block_mean(img, w, block_x0(w, s, k), block_y0(w, s, k), 0, s) >= 127
}

/// The bit sequence one frame decodes to in Binary mode, block-row-major.
pub open spec fn frame_bits(img: Seq<u8>, w: int, h: int, s: int) -> Seq<bool> {
    Seq::new(block_count(w, h, s) as nat, |k: int| frame_bit(img, w, h, s, k))
}

/// Byte `u` of the Color-mode reading of a frame: channel `u % 3` of block
/// `u / 3`.
pub open spec fn frame_byte(img: Seq<u8>, w: int, h: int, s: int, u: int) -> u8 {
    block_mean(img, w, block_x0(w, s, u / 3), block_y0(w, s, u / 3), u % 3, s) as u8
}

/// The byte sequence one frame decodes to in Color mode: three channel means
/// per block, block-row-major.
pub open spec fn frame_bytes(img: Seq<u8>, w: int, h: int, s: int) -> Seq<u8> {
    Seq::new((3 * block_count(w, h, s)) as nat, |u: int| frame_byte(img, w, h, s, u))
}

/// Every block of the capacity grid is anchored with its whole `s x s`
/// square inside the frame: no block write or read ever targets coordinates
/// outside `[0, w) x [0, h)`. Together with `block_count` this is the frame
/// capacity invariant: a frame holds exactly `(w / s) * (h / s)` blocks.
pub proof fn lemma_block_anchor_in_bounds(w: int, h: int, s: int, k: int)
    by (nonlinear_arith)
    requires
        1 <= s <= w,
        s <= h,
        0 <= k < block_count(w, h, s),
    ensures
        0 <= block_x0(w, s, k),
        block_x0(w, s, k) + s <= w,
        0 <= block_y0(w, s, k),
        block_y0(w, s, k) + s <= h,
{
}

/// Distinct blocks occupy disjoint pixel squares.
proof fn lemma_blocks_disjoint(w: int, h: int, s: int, k1: int, k2: int, xx: int, yy: int)
    by (nonlinear_arith)
    requires
        1 <= s <= w,
        s <= h,
        0 <= k1 < block_count(w, h, s),
        0 <= k2 < block_count(w, h, s),
        k1 != k2,
        block_x0(w, s, k1) <= xx < block_x0(w, s, k1) + s,
        block_y0(w, s, k1) <= yy < block_y0(w, s, k1) + s,
    ensures
        !(block_x0(w, s, k2) <= xx < block_x0(w, s, k2) + s && block_y0(w, s, k2) <= yy
            < block_y0(w, s, k2) + s),
{
}

/// Two images that agree on a rectangle have the same channel sums there.
proof fn lemma_row_sum_congruent(
    img1: Seq<u8>,
    img2: Seq<u8>,
    w: int,
    x0: int,
    y: int,
    c: int,
    n: nat,
)
    requires
        forall|j: int| 0 <= j < n ==> #[trigger] px(img1, w, x0 + j, y, c) == px(img2, w, x0 + j, y, c),
    ensures
        row_sum(img1, w, x0, y, c, n) == row_sum(img2, w, x0, y, c, n),
    decreases n,
{
    if n > 0 {
        lemma_row_sum_congruent(img1, img2, w, x0, y, c, (n - 1) as nat);
    }
}

proof fn lemma_rect_sum_congruent(
    img1: Seq<u8>,
    img2: Seq<u8>,
    w: int,
    x0: int,
    y0: int,
    c: int,
    n: nat,
    rows: nat,
)
    requires
        forall|i: int, j: int|
            0 <= i < rows && 0 <= j < n ==> #[trigger] px(img1, w, x0 + j, y0 + i, c) == px(
                img2,
                w,
                x0 + j,
                y0 + i,
                c,
            ),
    ensures
        rect_sum(img1, w, x0, y0, c, n, rows) == rect_sum(img2, w, x0, y0, c, n, rows),
    decreases rows,
{
    if rows > 0 {
        lemma_rect_sum_congruent(img1, img2, w, x0, y0, c, n, (rows - 1) as nat);
        lemma_row_sum_congruent(img1, img2, w, x0, y0 + rows - 1, c, n);
    }
}

/// An all-zero image has every block uniformly black.
proof fn lemma_zero_block_uniform(img: Seq<u8>, w: int, h: int, s: int, t: int)
    requires
        1 <= s <= w <= MAX_DIMENSION,
        s <= h <= MAX_DIMENSION,
        img.len() == 3 * w * h,
        forall|i: int| 0 <= i < img.len() ==> img[i] == 0u8,
        0 <= t < block_count(w, h, s),
    ensures
        block_rgb_uniform(img, w, s, t, 0, 0, 0),
{
    lemma_block_anchor_in_bounds(w, h, s, t);
    let x0 = block_x0(w, s, t);
    let y0 = block_y0(w, s, t);
    assert forall|ii: int, jj: int| 0 <= ii < s && 0 <= jj < s implies #[trigger] px(
        img,
        w,
        x0 + jj,
        y0 + ii,
        0,
    ) == 0u8 by {
        lemma_px_index_bounds(w, h, x0 + jj, y0 + ii);
    }
    assert forall|ii: int, jj: int| 0 <= ii < s && 0 <= jj < s implies #[trigger] px(
        img,
        w,
        x0 + jj,
        y0 + ii,
        1,
    ) == 0u8 by {
        lemma_px_index_bounds(w, h, x0 + jj, y0 + ii);
    }
    assert forall|ii: int, jj: int| 0 <= ii < s && 0 <= jj < s implies #[trigger] px(
        img,
        w,
        x0 + jj,
        y0 + ii,
        2,
    ) == 0u8 by {
        lemma_px_index_bounds(w, h, x0 + jj, y0 + ii);
    }
}

/// Writing block `k` leaves every other block's uniform fill intact.
proof fn lemma_block_untouched(
    img_old: Seq<u8>,
    img_new: Seq<u8>,
    w: int,
    h: int,
    s: int,
    t: int,
    k: int,
    vr: u8,
    vg: u8,
    vb: u8,
)
    requires
        1 <= s <= w <= MAX_DIMENSION,
        s <= h <= MAX_DIMENSION,
        0 <= t < block_count(w, h, s),
        0 <= k < block_count(w, h, s),
        t != k,
        block_rgb_uniform(img_old, w, s, t, vr, vg, vb),
        forall|xx: int, yy: int, cc: int|
            0 <= xx < w && 0 <= yy < h && 0 <= cc < 3 && !(block_x0(w, s, k) <= xx < block_x0(
                w,
                s,
                k,
            ) + s && block_y0(w, s, k) <= yy < block_y0(w, s, k) + s) ==> #[trigger] px(
                img_new,
                w,
                xx,
                yy,
                cc,
            ) == px(img_old, w, xx, yy, cc),
    ensures
        block_rgb_uniform(img_new, w, s, t, vr, vg, vb),
{
    lemma_block_anchor_in_bounds(w, h, s, t);
    let x0 = block_x0(w, s, t);
    let y0 = block_y0(w, s, t);
    assert forall|ii: int, jj: int| 0 <= ii < s && 0 <= jj < s implies #[trigger] px(
        img_new,
        w,
        x0 + jj,
        y0 + ii,
        0,
    ) == vr by {
        lemma_blocks_disjoint(w, h, s, t, k, x0 + jj, y0 + ii);
    }
    assert forall|ii: int, jj: int| 0 <= ii < s && 0 <= jj < s implies #[trigger] px(
        img_new,
        w,
        x0 + jj,
        y0 + ii,
        1,
    ) == vg by {
        lemma_blocks_disjoint(w, h, s, t, k, x0 + jj, y0 + ii);
    }
    assert forall|ii: int, jj: int| 0 <= ii < s && 0 <= jj < s implies #[trigger] px(
        img_new,
        w,
        x0 + jj,
        y0 + ii,
        2,
    ) == vb by {
        lemma_blocks_disjoint(w, h, s, t, k, x0 + jj, y0 + ii);
    }
}

/// How a worker's frame loop ended: the chunk still has data for another
/// frame, or this frame consumed the rest of the chunk. A normal two-case
/// outcome, deliberately not an error.
#[derive(Clone, Copy, PartialEq, Eq, Structural, Debug)]
pub enum EtchOutcome {
    MoreData,
    ChunkExhausted,
}

/// The brightness a bit is etched with: white for 1, black for 0.
pub open spec fn bit_color(b: bool) -> u8 {
    if b {
        255
    } else {
        0
    }
}

/// Bit `i` of a chunk, with zero (black) padding past its end.
pub open spec fn bit_at(data: Seq<bool>, i: int) -> bool {
    if 0 <= i < data.len() {
        data[i]
    } else {
        false
    }
}

/// Byte `i` of a chunk, with zero padding past its end.
pub open spec fn byte_at(data: Seq<u8>, i: int) -> u8 {
    if 0 <= i < data.len() {
        data[i]
    } else {
        0
    }
}

/// Block `k` of the image is filled uniformly with `(r, g, b)`.
pub open spec fn block_rgb_uniform(
    img: Seq<u8>,
    w: int,
    s: int,
    k: int,
    r: u8,
    g: u8,
    b: u8,
) -> bool {
    &&& block_uniform(img, w, block_x0(w, s, k), block_y0(w, s, k), 0, s, r)
    &&& block_uniform(img, w, block_x0(w, s, k), block_y0(w, s, k), 1, s, g)
    &&& block_uniform(img, w, block_x0(w, s, k), block_y0(w, s, k), 2, s, b)
}

/// Etches Binary-mode payload bits into a fresh all-black frame, one bit per
/// block in row-major block order, starting at `*global_index` in `data`;
/// stops when the frame is full or the chunk runs out, whichever is first.
pub fn etch_bw(source: &mut EmbedSource, data: &Vec<bool>, global_index: &mut usize) -> (r:
    EtchOutcome)
    requires
        old(source).wf(),
        old(source).size <= old(source).frame_size.width,
        old(source).size <= old(source).frame_size.height,
        forall|t: int| 0 <= t < old(source).image@.len() ==> old(source).image@[t] == 0u8,
        *old(global_index) < data@.len(),
        block_count(
            old(source).frame_size.width as int,
            old(source).frame_size.height as int,
            old(source).size as int,
        ) >= 1,
    ensures
        final(source).wf(),
        final(source).size == old(source).size,
        final(source).frame_size == old(source).frame_size,
        final(source).actual_size == old(source).actual_size,
        ({
            let w = old(source).frame_size.width as int;
            let h = old(source).frame_size.height as int;
            let s = old(source).size as int;
            let cap = block_count(w, h, s);
            let start = *old(global_index) as int;
            &&& *final(global_index) as int == if start + cap <= data@.len() {
                start + cap
            } else {
                data@.len() as int
            }
            &&& (r == EtchOutcome::ChunkExhausted <==> start + cap >= data@.len())
            &&& forall|t: int|
                0 <= t < cap ==> frame_bits(final(source).image@, w, h, s)[t] == bit_at(
                    data@,
                    start + t,
                )
            &&& forall|t: int|
                0 <= t < cap ==> #[trigger] block_rgb_uniform(
                    final(source).image@,
                    w,
                    s,
                    t,
                    bit_color(bit_at(data@, start + t)),
                    bit_color(bit_at(data@, start + t)),
                    bit_color(bit_at(data@, start + t)),
                )
        }),
{
    let w: i32 = source.frame_size.width;
    let h: i32 = source.frame_size.height;
    let s: i32 = source.size;
    let bpr: usize = (w / s) as usize;
    let rows: usize = (h / s) as usize;
    proof {
        assert((w as int / s as int) * (h as int / s as int) <= 16384 * 16384 && (w as int / s as int)
            * (h as int / s as int) >= 0 && w as int / s as int >= 1 && h as int / s as int >= 1)
            by (nonlinear_arith)
            requires
                1 <= s <= w <= 16384,
                s <= h <= 16384,
        ;
    }
    let cap: usize = bpr * rows;
    let ghost start = *global_index as int;
    let mut k: usize = 0;
    proof {
        assert forall|t: int| 0 <= t < cap implies #[trigger] block_rgb_uniform(
            source.image@,
            w as int,
            s as int,
            t,
            0,
            0,
            0,
        ) by {
            lemma_zero_block_uniform(source.image@, w as int, h as int, s as int, t);
        }
    }
    while k < cap && *global_index < data.len()
        invariant
            source.wf(),
            w == source.frame_size.width,
            h == source.frame_size.height,
            s == source.size,
            s <= w,
            s <= h,
            source.frame_size == old(source).frame_size,
            source.actual_size == old(source).actual_size,
            bpr == w as int / s as int,
            rows == h as int / s as int,
            bpr >= 1,
            cap == block_count(w as int, h as int, s as int),
            1 <= cap <= 0x10000000,
            k <= cap,
            *global_index as int == start + k,
            start + k <= data@.len(),
            forall|t: int|
                0 <= t < k ==> #[trigger] block_rgb_uniform(
                    source.image@,
                    w as int,
                    s as int,
                    t,
                    bit_color(data@[start + t]),
                    bit_color(data@[start + t]),
                    bit_color(data@[start + t]),
                ),
            forall|t: int|
                k <= t < cap ==> #[trigger] block_rgb_uniform(
                    source.image@,
                    w as int,
                    s as int,
                    t,
                    0,
                    0,
                    0,
                ),
        decreases cap - k,
    {
        let bx: usize = k % bpr;
        let by: usize = k / bpr;
        proof {
            lemma_block_anchor_in_bounds(w as int, h as int, s as int, k as int);
            assert(0 <= (k as int) / (bpr as int) <= (k as int)) by (nonlinear_arith)
                requires
                    (bpr as int) >= 1,
                    0 <= (k as int),
            ;
            assert((bx as int) * (s as int) == block_x0(w as int, s as int, k as int));
            assert((by as int) * (s as int) == block_y0(w as int, s as int, k as int));
        }
        let x: i32 = (bx as i32) * s;
        let y: i32 = (by as i32) * s;
        let bit: bool = data[*global_index];
        let v: u8 = if bit {
            255
        } else {
            0
        };
        let ghost img_prev = source.image@;
        etch_pixel(source, x, y, v, v, v);
        *global_index = *global_index + 1;
        proof {
            assert forall|t: int| 0 <= t < k as int implies #[trigger] block_rgb_uniform(
                source.image@,
                w as int,
                s as int,
                t,
                bit_color(data@[start + t]),
                bit_color(data@[start + t]),
                bit_color(data@[start + t]),
            ) by {
                lemma_block_untouched(
                    img_prev,
                    source.image@,
                    w as int,
                    h as int,
                    s as int,
                    t,
                    k as int,
                    bit_color(data@[start + t]),
                    bit_color(data@[start + t]),
                    bit_color(data@[start + t]),
                );
            }
            assert forall|t: int| k as int + 1 <= t < cap implies #[trigger] block_rgb_uniform(
                source.image@,
                w as int,
                s as int,
                t,
                0,
                0,
                0,
            ) by {
                lemma_block_untouched(
                    img_prev,
                    source.image@,
                    w as int,
                    h as int,
                    s as int,
                    t,
                    k as int,
                    0,
                    0,
                    0,
                );
            }
            assert(block_rgb_uniform(source.image@, w as int, s as int, k as int, v, v, v));
        }
        k = k + 1;
    }
    proof {
        assert forall|t: int| 0 <= t < cap as int implies frame_bits(
            source.image@,
            w as int,
            h as int,
            s as int,
        )[t] == bit_at(data@, start + t) by {
            lemma_block_anchor_in_bounds(w as int, h as int, s as int, t);
            let x0 = block_x0(w as int, s as int, t);
            let y0 = block_y0(w as int, s as int, t);
            if t < k as int {
                let bv = bit_color(data@[start + t]);
                assert(block_rgb_uniform(source.image@, w as int, s as int, t, bv, bv, bv));
                lemma_uniform_block_mean(source.image@, w as int, x0, y0, 0, s as int, bv);
            } else {
                assert(block_rgb_uniform(source.image@, w as int, s as int, t, 0u8, 0u8, 0u8));
                lemma_uniform_block_mean(source.image@, w as int, x0, y0, 0, s as int, 0u8);
            }
        }
        assert forall|t: int| 0 <= t < cap as int implies #[trigger] block_rgb_uniform(
            source.image@,
            w as int,
            s as int,
            t,
            bit_color(bit_at(data@, start + t)),
            bit_color(bit_at(data@, start + t)),
            bit_color(bit_at(data@, start + t)),
        ) by {
            if t < k as int {
                assert(bit_at(data@, start + t) == data@[start + t]);
                assert(block_rgb_uniform(
                    source.image@,
                    w as int,
                    s as int,
                    t,
                    bit_color(data@[start + t]),
                    bit_color(data@[start + t]),
                    bit_color(data@[start + t]),
                ));
            } else {
                assert(start + t >= data@.len());
                assert(bit_at(data@, start + t) == false);
                assert(block_rgb_uniform(source.image@, w as int, s as int, t, 0u8, 0u8, 0u8));
            }
        }
    }
    if *global_index >= data.len() {
        EtchOutcome::ChunkExhausted
    } else {
        EtchOutcome::MoreData
    }
}

/// Etches Color-mode payload bytes into a fresh all-black frame, three bytes
/// per block (one per channel) in row-major block order, starting at
/// `*global_index` in `data`; a final block with fewer than three bytes left
/// is padded with zeros, and decoding truncates the padding away again.
pub fn etch_color(source: &mut EmbedSource, data: &Vec<u8>, global_index: &mut usize) -> (r:
    EtchOutcome)
    requires
        old(source).wf(),
        old(source).size <= old(source).frame_size.width,
        old(source).size <= old(source).frame_size.height,
        forall|t: int| 0 <= t < old(source).image@.len() ==> old(source).image@[t] == 0u8,
        *old(global_index) < data@.len(),
        block_count(
            old(source).frame_size.width as int,
            old(source).frame_size.height as int,
            old(source).size as int,
        ) >= 1,
    ensures
        final(source).wf(),
        final(source).size == old(source).size,
        final(source).frame_size == old(source).frame_size,
        final(source).actual_size == old(source).actual_size,
        ({
            let w = old(source).frame_size.width as int;
            let h = old(source).frame_size.height as int;
            let s = old(source).size as int;
            let cap = block_count(w, h, s);
            let start = *old(global_index) as int;
            &&& *final(global_index) as int == if start + 3 * cap <= data@.len() {
                start + 3 * cap
            } else {
                data@.len() as int
            }
            &&& (r == EtchOutcome::ChunkExhausted <==> start + 3 * cap >= data@.len())
            &&& forall|u: int|
                0 <= u < 3 * cap ==> frame_bytes(final(source).image@, w, h, s)[u] == byte_at(
                    data@,
                    start + u,
                )
            &&& forall|t: int|
                0 <= t < cap ==> #[trigger] block_rgb_uniform(
                    final(source).image@,
                    w,
                    s,
                    t,
                    byte_at(data@, start + 3 * t),
                    byte_at(data@, start + 3 * t + 1),
                    byte_at(data@, start + 3 * t + 2),
                )
        }),
{
    let w: i32 = source.frame_size.width;
    let h: i32 = source.frame_size.height;
    let s: i32 = source.size;
    let bpr: usize = (w / s) as usize;
    let rows: usize = (h / s) as usize;
    proof {
        assert((w as int / s as int) * (h as int / s as int) <= 16384 * 16384 && (w as int / s as int)
            * (h as int / s as int) >= 0 && w as int / s as int >= 1 && h as int / s as int >= 1)
            by (nonlinear_arith)
            requires
                1 <= s <= w <= 16384,
                s <= h <= 16384,
        ;
    }
    let cap: usize = bpr * rows;
    let ghost start = *global_index as int;
    let mut k: usize = 0;
    proof {
        assert forall|t: int| 0 <= t < cap implies #[trigger] block_rgb_uniform(
            source.image@,
            w as int,
            s as int,
            t,
            0,
            0,
            0,
        ) by {
            lemma_zero_block_uniform(source.image@, w as int, h as int, s as int, t);
        }
    }
    while k < cap && *global_index < data.len()
        invariant
            source.wf(),
            w == source.frame_size.width,
            h == source.frame_size.height,
            s == source.size,
            s <= w,
            s <= h,
            source.frame_size == old(source).frame_size,
            source.actual_size == old(source).actual_size,
            bpr == w as int / s as int,
            rows == h as int / s as int,
            bpr >= 1,
            cap == block_count(w as int, h as int, s as int),
            1 <= cap <= 0x10000000,
            k <= cap,
            *global_index as int == if start + 3 * (k as int) <= data@.len() {
                start + 3 * (k as int)
            } else {
                data@.len() as int
            },
            0 <= start <= data@.len(),
            forall|t: int|
                0 <= t < k ==> #[trigger] block_rgb_uniform(
                    source.image@,
                    w as int,
                    s as int,
                    t,
                    byte_at(data@, start + 3 * t),
                    byte_at(data@, start + 3 * t + 1),
                    byte_at(data@, start + 3 * t + 2),
                ),
            forall|t: int|
                k <= t < cap ==> #[trigger] block_rgb_uniform(
                    source.image@,
                    w as int,
                    s as int,
                    t,
                    0,
                    0,
                    0,
                ),
        decreases cap - k,
    {
        let bx: usize = k % bpr;
        let by: usize = k / bpr;
        proof {
            lemma_block_anchor_in_bounds(w as int, h as int, s as int, k as int);
            assert(0 <= (k as int) / (bpr as int) <= (k as int)) by (nonlinear_arith)
                requires
                    (bpr as int) >= 1,
                    0 <= (k as int),
            ;
            assert((bx as int) * (s as int) == block_x0(w as int, s as int, k as int));
            assert((by as int) * (s as int) == block_y0(w as int, s as int, k as int));
        }
        let x: i32 = (bx as i32) * s;
        let y: i32 = (by as i32) * s;
        let base: usize = *global_index;
        let remaining: usize = data.len() - base;
        let v0: u8 = data[base];
        let v1: u8 = if remaining > 1 {
            data[base + 1]
        } else {
            0
        };
        let v2: u8 = if remaining > 2 {
            data[base + 2]
        } else {
            0
        };
        let ghost img_prev = source.image@;
        etch_pixel(source, x, y, v0, v1, v2);
        if remaining > 3 {
            *global_index = base + 3;
        } else {
            *global_index = data.len();
        }
        proof {
            assert(v0 == byte_at(data@, start + 3 * (k as int)));
            assert(v1 == byte_at(data@, start + 3 * (k as int) + 1));
            assert(v2 == byte_at(data@, start + 3 * (k as int) + 2));
            assert forall|t: int| 0 <= t < k as int implies #[trigger] block_rgb_uniform(
                source.image@,
                w as int,
                s as int,
                t,
                byte_at(data@, start + 3 * t),
                byte_at(data@, start + 3 * t + 1),
                byte_at(data@, start + 3 * t + 2),
            ) by {
                lemma_block_untouched(
                    img_prev,
                    source.image@,
                    w as int,
                    h as int,
                    s as int,
                    t,
                    k as int,
                    byte_at(data@, start + 3 * t),
                    byte_at(data@, start + 3 * t + 1),
                    byte_at(data@, start + 3 * t + 2),
                );
            }
            assert forall|t: int| k as int + 1 <= t < cap implies #[trigger] block_rgb_uniform(
                source.image@,
                w as int,
                s as int,
                t,
                0,
                0,
                0,
            ) by {
                lemma_block_untouched(
                    img_prev,
                    source.image@,
                    w as int,
                    h as int,
                    s as int,
                    t,
                    k as int,
                    0,
                    0,
                    0,
                );
            }
            assert(block_rgb_uniform(source.image@, w as int, s as int, k as int, v0, v1, v2));
        }
        k = k + 1;
    }
    proof {
        assert forall|u: int| 0 <= u < 3 * (cap as int) implies frame_bytes(
            source.image@,
            w as int,
            h as int,
            s as int,
        )[u] == byte_at(data@, start + u) by {
            let t = u / 3;
            let c = u % 3;
            assert(0 <= t < cap as int);
            lemma_block_anchor_in_bounds(w as int, h as int, s as int, t);
            let x0 = block_x0(w as int, s as int, t);
            let y0 = block_y0(w as int, s as int, t);
            if t < k as int {
                let va = byte_at(data@, start + 3 * t);
                let vb = byte_at(data@, start + 3 * t + 1);
                let vc = byte_at(data@, start + 3 * t + 2);
                assert(block_rgb_uniform(source.image@, w as int, s as int, t, va, vb, vc));
                lemma_uniform_block_mean(source.image@, w as int, x0, y0, 0, s as int, va);
                lemma_uniform_block_mean(source.image@, w as int, x0, y0, 1, s as int, vb);
                lemma_uniform_block_mean(source.image@, w as int, x0, y0, 2, s as int, vc);
                assert(u == 3 * t + c);
            } else {
                assert(block_rgb_uniform(source.image@, w as int, s as int, t, 0u8, 0u8, 0u8));
                lemma_uniform_block_mean(source.image@, w as int, x0, y0, 0, s as int, 0u8);
                lemma_uniform_block_mean(source.image@, w as int, x0, y0, 1, s as int, 0u8);
                lemma_uniform_block_mean(source.image@, w as int, x0, y0, 2, s as int, 0u8);
                assert(start + u >= start + 3 * t);
            }
        }
        assert forall|t: int| 0 <= t < cap as int implies #[trigger] block_rgb_uniform(
            source.image@,
            w as int,
            s as int,
            t,
            byte_at(data@, start + 3 * t),
            byte_at(data@, start + 3 * t + 1),
            byte_at(data@, start + 3 * t + 2),
        ) by {
            if t < k as int {
            } else {
                assert(start + 3 * t >= data@.len());
                assert(byte_at(data@, start + 3 * t) == 0u8);
                assert(byte_at(data@, start + 3 * t + 1) == 0u8);
                assert(byte_at(data@, start + 3 * t + 2) == 0u8);
                assert(block_rgb_uniform(source.image@, w as int, s as int, t, 0u8, 0u8, 0u8));
            }
        }
    }
    if *global_index >= data.len() {
        EtchOutcome::ChunkExhausted
    } else {
        EtchOutcome::MoreData
    }
}

/// Decodes one Binary-mode frame: one bit per block in row-major block
/// order, truncated to `final_bit` bits on the final data frame.
pub fn read_bw(source: &EmbedSource, current_frame: i32, final_frame: i32, final_bit: i32) -> (r:
    Vec<bool>)
    requires
        source.wf(),
        source.size <= source.frame_size.width,
        source.size <= source.frame_size.height,
        current_frame == final_frame ==> 0 <= final_bit <= block_count(
            source.frame_size.width as int,
            source.frame_size.height as int,
            source.size as int,
        ),
    ensures
        ({
            let full = frame_bits(
                source.image@,
                source.frame_size.width as int,
                source.frame_size.height as int,
                source.size as int,
            );
            if current_frame == final_frame {
                r@ == full.take(final_bit as int)
            } else {
                r@ == full
            }
        }),
{
    let w: i32 = source.frame_size.width;
    let h: i32 = source.frame_size.height;
    let s: i32 = source.size;
    let bpr: usize = (w / s) as usize;
    let rows: usize = (h / s) as usize;
    proof {
        assert((w as int / s as int) * (h as int / s as int) <= 16384 * 16384 && (w as int / s as int)
            * (h as int / s as int) >= 0 && w as int / s as int >= 1 && h as int / s as int >= 1)
            by (nonlinear_arith)
            requires
                1 <= s <= w <= 16384,
                s <= h <= 16384,
        ;
    }
    let cap: usize = bpr * rows;
    let mut binary_data: Vec<bool> = Vec::new();
    let mut k: usize = 0;
    while k < cap
        invariant
            source.wf(),
            w == source.frame_size.width,
            h == source.frame_size.height,
            s == source.size,
            s <= w,
            s <= h,
            bpr == w as int / s as int,
            rows == h as int / s as int,
            bpr >= 1,
            cap == block_count(w as int, h as int, s as int),
            cap <= 0x10000000,
            k <= cap,
            binary_data@ == frame_bits(source.image@, w as int, h as int, s as int).take(k as int),
        decreases cap - k,
    {
        let bx: usize = k % bpr;
        let by: usize = k / bpr;
        proof {
            lemma_block_anchor_in_bounds(w as int, h as int, s as int, k as int);
            assert(0 <= (k as int) / (bpr as int) <= (k as int)) by (nonlinear_arith)
                requires
                    (bpr as int) >= 1,
                    0 <= (k as int),
            ;
            assert((bx as int) * (s as int) == block_x0(w as int, s as int, k as int));
            assert((by as int) * (s as int) == block_y0(w as int, s as int, k as int));
        }
        let x: i32 = (bx as i32) * s;
        let y: i32 = (by as i32) * s;
        let rgb = get_pixel(source, x, y);
        let bit: bool = match rgb {
            Some(t) => t.0 >= 127,
            None => {
                proof {
                    assert(false);
                }
                false
            },
        };
        binary_data.push(bit);
        proof {
            assert(binary_data@ =~= frame_bits(source.image@, w as int, h as int, s as int).take(
                k as int + 1,
            ));
        }
        k = k + 1;
    }
    proof {
        let full = frame_bits(source.image@, w as int, h as int, s as int);
        assert(full.take(cap as int) =~= full);
    }
    if current_frame == final_frame {
        binary_data.truncate(final_bit as usize);
        proof {
            let full = frame_bits(source.image@, w as int, h as int, s as int);
            assert(binary_data@ =~= full.take(final_bit as int));
        }
    }
    binary_data
}

/// Decodes one Color-mode frame: the three channel means of each block in
/// row-major block order, truncated to `final_byte` bytes on the final data
/// frame.
pub fn read_color(source: &EmbedSource, current_frame: i32, final_frame: i32, final_byte: i32) -> (r:
    Vec<u8>)
    requires
        source.wf(),
        source.size <= source.frame_size.width,
        source.size <= source.frame_size.height,
        current_frame == final_frame ==> 0 <= final_byte <= 3 * block_count(
            source.frame_size.width as int,
            source.frame_size.height as int,
            source.size as int,
        ),
    ensures
        ({
            let full = frame_bytes(
                source.image@,
                source.frame_size.width as int,
                source.frame_size.height as int,
                source.size as int,
            );
            if current_frame == final_frame {
                r@ == full.take(final_byte as int)
            } else {
                r@ == full
            }
        }),
{
    let w: i32 = source.frame_size.width;
    let h: i32 = source.frame_size.height;
    let s: i32 = source.size;
    let bpr: usize = (w / s) as usize;
    let rows: usize = (h / s) as usize;
    proof {
        assert((w as int / s as int) * (h as int / s as int) <= 16384 * 16384 && (w as int / s as int)
            * (h as int / s as int) >= 0 && w as int / s as int >= 1 && h as int / s as int >= 1)
            by (nonlinear_arith)
            requires
                1 <= s <= w <= 16384,
                s <= h <= 16384,
        ;
    }
    let cap: usize = bpr * rows;
    let mut byte_data: Vec<u8> = Vec::new();
    let mut k: usize = 0;
    while k < cap
        invariant
            source.wf(),
            w == source.frame_size.width,
            h == source.frame_size.height,
            s == source.size,
            s <= w,
            s <= h,
            bpr == w as int / s as int,
            rows == h as int / s as int,
            bpr >= 1,
            cap == block_count(w as int, h as int, s as int),
            cap <= 0x10000000,
            k <= cap,
            byte_data@ == frame_bytes(source.image@, w as int, h as int, s as int).take(
                3 * k as int,
            ),
        decreases cap - k,
    {
        let bx: usize = k % bpr;
        let by: usize = k / bpr;
        proof {
            lemma_block_anchor_in_bounds(w as int, h as int, s as int, k as int);
            assert(0 <= (k as int) / (bpr as int) <= (k as int)) by (nonlinear_arith)
                requires
                    (bpr as int) >= 1,
                    0 <= (k as int),
            ;
            assert((bx as int) * (s as int) == block_x0(w as int, s as int, k as int));
            assert((by as int) * (s as int) == block_y0(w as int, s as int, k as int));
        }
        let x: i32 = (bx as i32) * s;
        let y: i32 = (by as i32) * s;
        let rgb: (u8, u8, u8) = match get_pixel(source, x, y) {
            Some(t) => t,
            None => {
                proof {
                    assert(false);
                }
                (0, 0, 0)
            },
        };
        byte_data.push(rgb.0);
        byte_data.push(rgb.1);
        byte_data.push(rgb.2);
        proof {
            assert((3 * k as int) / 3 == k as int);
            assert((3 * k as int + 1) / 3 == k as int);
            assert((3 * k as int + 2) / 3 == k as int);
            assert(byte_data@ =~= frame_bytes(source.image@, w as int, h as int, s as int).take(
                3 * (k as int + 1),
            ));
        }
        k = k + 1;
    }
    proof {
        let full = frame_bytes(source.image@, w as int, h as int, s as int);
        assert(full.take(3 * cap as int) =~= full);
    }
    if current_frame == final_frame {
        byte_data.truncate(final_byte as usize);
        proof {
            let full = frame_bytes(source.image@, w as int, h as int, s as int);
            assert(byte_data@ =~= full.take(final_byte as int));
        }
    }
    byte_data
}


/// Number of frames a payload of `units` units fills at `cap_units` units
/// per frame, the last frame generally only partially.
pub open spec fn spec_total_frames(units: int, cap_units: int) -> int {
    (units + cap_units - 1) / cap_units
}

/// Zero-based index of the last data frame.
pub open spec fn spec_final_frame(units: int, cap_units: int) -> int {
    spec_total_frames(units, cap_units) - 1
}

/// Number of valid payload units in the last data frame.
pub open spec fn spec_final_count(units: int, cap_units: int) -> int {
    units - spec_final_frame(units, cap_units) * cap_units
}

/// The ceiling division defining the frame count brackets the payload:
/// the frames before the last cannot hold it, the full frame list can.
pub proof fn lemma_ceil_bounds(units: int, cap: int)
    by (nonlinear_arith)
    requires
        1 <= units,
        1 <= cap,
    ensures
        1 <= spec_total_frames(units, cap) <= units,
        (spec_total_frames(units, cap) - 1) * cap < units,
        units <= spec_total_frames(units, cap) * cap,
        spec_total_frames(units, cap) * cap <= units + cap - 1,
        1 <= spec_final_count(units, cap) <= cap,
{
}

/// Boundary case: a payload that is an exact multiple of one frame's
/// capacity still fills its last frame completely, so the recorded final
/// element count is the full capacity, never zero.
pub proof fn lemma_final_count_boundary(units: int, cap: int)
    by (nonlinear_arith)
    requires
        1 <= units,
        1 <= cap,
        units % cap == 0,
    ensures
        spec_final_count(units, cap) == cap,
{
}

/// The word that tags the payload mode in the header.
pub open spec fn mode_marker(m: OutputMode) -> u32 {
    match m {
        OutputMode::Color => 0xFFFFFFFFu32,
        OutputMode::Binary => 0u32,
    }
}

/// Units one data frame holds under these settings: one bit per block in
/// Binary mode, three bytes per block in Color mode.
pub open spec fn units_per_frame(st: Settings, m: OutputMode) -> int {
    match m {
        OutputMode::Color => 3 * block_count(st.width as int, st.height as int, st.size as int),
        OutputMode::Binary => block_count(st.width as int, st.height as int, st.size as int),
    }
}

/// The five header words: mode marker, final frame index, final element
/// count, data block size, and the fixed end marker.
pub open spec fn header_words(m: OutputMode, fi: u32, fc: u32, size: u32) -> Seq<u32> {
    seq![mode_marker(m), fi, fc, size, 0xFFFFFFFFu32]
}

/// The 160-bit stream the instruction frame carries for a payload of
/// `units` units under the given settings and mode.
pub open spec fn header_stream(st: Settings, m: OutputMode, units: int) -> Seq<bool> {
    spec_bits_of_words(
        header_words(
            m,
            spec_final_frame(units, units_per_frame(st, m)) as u32,
            spec_final_count(units, units_per_frame(st, m)) as u32,
            st.size as u32,
        ),
    )
}

/// The image is a correctly etched instruction frame for this payload: its
/// block grid at block size 5 carries the header stream, zero-padded.
pub open spec fn instruction_frame_encodes(
    img: Seq<u8>,
    st: Settings,
    m: OutputMode,
    units: int,
) -> bool {
    forall|t: int|
        0 <= t < block_count(st.width as int, st.height as int, 5) ==> frame_bits(
            img,
            st.width as int,
            st.height as int,
            5,
        )[t] == bit_at(header_stream(st, m, units), t)
}

/// Header round-trip at the word level: parsing the five words built from a
/// record gives the record back, end marker included.
pub proof fn lemma_header_round_trip(m: OutputMode, fi: u32, fc: u32, size: u32)
    ensures
        ({
            let ws = spec_words_of_bits(spec_bits_of_words(header_words(m, fi, fc, size)));
            &&& ws.len() == 5
            &&& (ws[0] == 0xFFFFFFFFu32 <==> m == OutputMode::Color)
            &&& ws[1] == fi
            &&& ws[2] == fc
            &&& ws[3] == size
            &&& ws[4] == 0xFFFFFFFFu32
        }),
{
    crate::convert::lemma_words_round_trip(header_words(m, fi, fc, size));
}

/// Builds the instruction frame: the five header words, expanded to bits
/// MSB-first, etched in Binary mode at the fixed block size 5 into a fresh
/// frame of the configured dimensions.
pub fn etch_instructions(settings: &Settings, data: &Data) -> (r: EmbedSource)
    requires
        settings.valid(),
        1 <= data.unit_count() <= 0x80000000,
    ensures
        r.wf(),
        r.size == 5,
        r.frame_size == (Size { width: settings.width, height: settings.height }),
        instruction_frame_encodes(r.image@, *settings, data.out_mode, data.unit_count()),
{
    let w: i32 = settings.width;
    let h: i32 = settings.height;
    let s: i32 = settings.size;
    proof {
        assert((w as int / s as int) * (h as int / s as int) >= 1 && (w as int / s as int) * (
        h as int / s as int) <= 16384 * 16384) by (nonlinear_arith)
            requires
                1 <= s <= w <= 16384,
                s <= h <= 16384,
        ;
        assert(w as int / 5 >= 1 && h as int / 5 >= 1 && (w as int / 5) * (h as int / 5) <= 16384
            * 16384) by (nonlinear_arith)
            requires
                (w as int / 5) * (h as int / 5) >= 128,
                1 <= w <= 16384,
                1 <= h <= 16384,
        ;
    }
    let bpr: usize = (w / s) as usize;
    let brr: usize = (h / s) as usize;
    let capb: usize = bpr * brr;
    let units: usize;
    let cap_units: usize;
    let marker: u32;
    match data.out_mode {
        OutputMode::Color => {
            units = data.bytes.len();
            cap_units = 3 * capb;
            marker = u32::MAX;
        },
        OutputMode::Binary => {
            units = data.binary.len();
            cap_units = capb;
            marker = u32::MIN;
        },
    }
    proof {
        lemma_ceil_bounds(units as int, cap_units as int);
    }
    let total_frames: usize = (units + cap_units - 1) / cap_units;
    let final_frame: usize = total_frames - 1;
    let final_count: usize = units - final_frame * cap_units;
    let mut u32_instructions: Vec<u32> = Vec::new();
    u32_instructions.push(marker);
    u32_instructions.push(final_frame as u32);
    u32_instructions.push(final_count as u32);
    u32_instructions.push(s as u32);
    u32_instructions.push(u32::MAX);
    proof {
        assert(u32_instructions@ =~= header_words(
            data.out_mode,
            spec_final_frame(data.unit_count(), units_per_frame(*settings, data.out_mode)) as u32,
            spec_final_count(data.unit_count(), units_per_frame(*settings, data.out_mode)) as u32,
            settings.size as u32,
        ));
    }
    let instruction_data: Vec<bool> = rip_binary_u32(u32_instructions);
    let mut source = EmbedSource::new(5, w, h);
    let mut index: usize = 0;
    proof {
        assert(forall|t: int|
            0 <= t < source.image@.len() ==> source.image@[t] == 0u8);
        assert(instruction_data@.len() == 160);
    }
    etch_bw(&mut source, &instruction_data, &mut index);
    source
}

/// Parses the instruction frame: binary-decodes its blocks at block size 5,
/// groups the bits into 32-bit words MSB-first, and maps words 0 to 3 back
/// to the mode, the final frame index, the final element count and the data
/// block size. Fails when fewer than four words can be recovered or a word
/// does not fit the record. The final flag reports the end-marker sanity
/// check: it is false exactly when a fifth word was recovered and differs
/// from the fixed marker; a mismatch is reported this way, never treated as
/// fatal by itself.
pub fn read_instructions(source: &EmbedSource, threads: usize) -> (r: Result<
    (OutputMode, i32, i32, Settings, bool),
    EtchError,
>)
    requires
        source.wf(),
        source.size == 5,
    ensures
        ({
            let w = source.frame_size.width as int;
            let h = source.frame_size.height as int;
            let ws = spec_words_of_bits(frame_bits(source.image@, w, h, 5));
            match r {
                Ok(t) => {
                    &&& ws.len() >= 4
                    &&& ws[1] <= i32::MAX as u32
                    &&& ws[2] <= i32::MAX as u32
                    &&& ws[3] <= i32::MAX as u32
                    &&& t.0 == (if ws[0] == 0xFFFFFFFFu32 {
                        OutputMode::Color
                    } else {
                        OutputMode::Binary
                    })
                    &&& t.1 == ws[1] as i32
                    &&& t.2 == ws[2] as i32
                    &&& t.3 == (Settings {
                        size: ws[3] as i32,
                        threads,
                        width: source.frame_size.width,
                        fps: 1337,
                        height: source.frame_size.height,
                    })
                    &&& t.4 == (ws.len() < 5 || ws[4] == 0xFFFFFFFFu32)
                },
                Err(e) => {
                    &&& e == EtchError::HeaderDecodeFailed
                    &&& (ws.len() < 4 || ws[1] > i32::MAX as u32 || ws[2] > i32::MAX as u32
                        || ws[3] > i32::MAX as u32)
                },
            }
        }),
{
    let w: i32 = source.frame_size.width;
    let h: i32 = source.frame_size.height;
    if w < 5 || h < 5 {
        proof {
            assert(block_count(w as int, h as int, 5) * 0 == 0);
            assert((w as int / 5) * (h as int / 5) < 128) by (nonlinear_arith)
                requires
                    1 <= w,
                    1 <= h,
                    w < 5 || h < 5,
                    w <= 16384,
                    h <= 16384,
            ;
            assert(frame_bits(source.image@, w as int, h as int, 5).len() < 128);
        }
        return Err(EtchError::HeaderDecodeFailed);
    }
    let binary_data: Vec<bool> = read_bw(source, 0, 1, 0);
    let u32_data: Vec<u32> = translate_u32(binary_data);
    if u32_data.len() < 4 {
        return Err(EtchError::HeaderDecodeFailed);
    }
    let w0: u32 = u32_data[0];
    let w1: u32 = u32_data[1];
    let w2: u32 = u32_data[2];
    let w3: u32 = u32_data[3];
    if w1 > i32::MAX as u32 || w2 > i32::MAX as u32 || w3 > i32::MAX as u32 {
        return Err(EtchError::HeaderDecodeFailed);
    }
    let out_mode = if w0 == u32::MAX {
        OutputMode::Color
    } else {
        OutputMode::Binary
    };
    let end_marker_ok: bool = if u32_data.len() >= 5 {
        u32_data[4] == u32::MAX
    } else {
        true
    };
    let settings = Settings::new(w3 as i32, threads, 1337, w, h);
    Ok((out_mode, w1 as i32, w2 as i32, settings, end_marker_ok))
}


/// One full multiple of `cap` shifts the frame count by exactly that factor.
proof fn lemma_ceil_add_multiple(lb: int, r: int, cap: int)
    requires
        0 <= lb,
        1 <= r,
        1 <= cap,
    ensures
        spec_total_frames(lb * cap + r, cap) == lb + spec_total_frames(r, cap),
{
    lemma_hoist_over_denominator(r + cap - 1, lb, cap as nat);
}

/// A payload that lands strictly inside one more frame raises the count to
/// exactly one more frame.
proof fn lemma_frames_exact(lb: int, cap: int, len: int)
    requires
        0 <= lb,
        1 <= cap,
        lb * cap < len <= lb * cap + cap,
    ensures
        spec_total_frames(len, cap) == lb + 1,
{
    let r = len - lb * cap;
    lemma_ceil_add_multiple(lb, r, cap);
    vstd::arithmetic::div_mod::lemma_fundamental_div_mod_converse_div(r + cap - 1, cap, 1, r - 1);
}

/// A chunk of exactly `q` frames' worth of units fills exactly `q` frames.
proof fn lemma_frames_of_full_chunk(q: int, cap: int)
    requires
        1 <= q,
        1 <= cap,
    ensures
        spec_total_frames(q * cap, cap) == q,
{
    assert(q * cap == (q - 1) * cap + cap) by (nonlinear_arith);
    assert((q - 1) * cap >= 0) by (nonlinear_arith)
        requires
            q >= 1,
            cap >= 1,
    ;
    lemma_ceil_add_multiple(q - 1, cap, cap);
    vstd::arithmetic::div_mod::lemma_fundamental_div_mod_converse_div(cap + cap - 1, cap, 1, cap - 1);
}

/// The data frames carry the Binary payload: frame `t` holds bits
/// `t * cap .. (t + 1) * cap` of the stream, zero-padded past its end.
pub open spec fn binary_windows(imgs: Seq<Seq<u8>>, bits: Seq<bool>, st: Settings) -> bool {
    forall|t: int, k: int|
        0 <= t < imgs.len() && 0 <= k < block_count(st.width as int, st.height as int, st.size as int)
            ==> #[trigger] frame_bits(imgs[t], st.width as int, st.height as int, st.size as int)[k]
            == bit_at(bits, t * block_count(st.width as int, st.height as int, st.size as int) + k)
}

/// The data frames carry the Color payload: frame `t` holds bytes
/// `t * 3 * cap .. (t + 1) * 3 * cap` of the stream, zero-padded past its end.
pub open spec fn color_windows(imgs: Seq<Seq<u8>>, bytes: Seq<u8>, st: Settings) -> bool {
    forall|t: int, u: int|
        0 <= t < imgs.len() && 0 <= u < 3 * block_count(
            st.width as int,
            st.height as int,
            st.size as int,
        ) ==> #[trigger] frame_bytes(imgs[t], st.width as int, st.height as int, st.size as int)[u]
            == byte_at(bytes, t * (3 * block_count(st.width as int, st.height as int, st.size as int)) + u)
}

/// One encode worker: repeatedly allocates a fresh frame and etches
/// sequentially from its chunk of Binary payload until the chunk is
/// exhausted; the frame where exhaustion occurs is kept, partially filled.
pub fn etch_worker_bw(chunk: &Vec<bool>, settings: &Settings) -> (frames: Vec<EmbedSource>)
    requires
        settings.valid(),
        1 <= chunk@.len(),
    ensures
        ({
            let w = settings.width as int;
            let h = settings.height as int;
            let s = settings.size as int;
            let cap = block_count(w, h, s);
            &&& frames@.len() == spec_total_frames(chunk@.len() as int, cap)
            &&& forall|t: int|
                0 <= t < frames@.len() ==> (#[trigger] frames@[t]).wf() && frames@[t].size
                    == settings.size && frames@[t].frame_size == (Size {
                    width: settings.width,
                    height: settings.height,
                })
            &&& forall|t: int, k: int|
                0 <= t < frames@.len() && 0 <= k < cap ==> #[trigger] frame_bits(
                    frames@[t].image@,
                    w,
                    h,
                    s,
                )[k] == bit_at(chunk@, t * cap + k)
            &&& forall|t: int, k: int|
                0 <= t < frames@.len() && 0 <= k < cap ==> #[trigger] block_rgb_uniform(
                    frames@[t].image@,
                    w,
                    s,
                    k,
                    bit_color(bit_at(chunk@, t * cap + k)),
                    bit_color(bit_at(chunk@, t * cap + k)),
                    bit_color(bit_at(chunk@, t * cap + k)),
                )
        }),
{
    let w: i32 = settings.width;
    let h: i32 = settings.height;
    let s: i32 = settings.size;
    proof {
        assert((w as int / s as int) * (h as int / s as int) <= 16384 * 16384 && (w as int / s as int)
            * (h as int / s as int) >= 1) by (nonlinear_arith)
            requires
                1 <= s <= w <= 16384,
                s <= h <= 16384,
        ;
    }
    let bpr: usize = (w / s) as usize;
    let brr: usize = (h / s) as usize;
    let cap: usize = bpr * brr;
    let mut frames: Vec<EmbedSource> = Vec::new();
    let mut index: usize = 0;
    let mut done: bool = false;
    while !done
        invariant
            settings.valid(),
            w == settings.width,
            h == settings.height,
            s == settings.size,
            cap == block_count(w as int, h as int, s as int),
            1 <= cap <= 0x10000000,
            1 <= chunk@.len(),
            !done ==> index as int == frames@.len() * (cap as int) && index < chunk@.len(),
            done ==> index == chunk@.len() && frames@.len() as int == spec_total_frames(
                chunk@.len() as int,
                cap as int,
            ),
            forall|t: int|
                0 <= t < frames@.len() ==> (#[trigger] frames@[t]).wf() && frames@[t].size == s
                    && frames@[t].frame_size == (Size { width: w, height: h }),
            forall|t: int, k: int|
                0 <= t < frames@.len() && 0 <= k < cap ==> #[trigger] frame_bits(
                    frames@[t].image@,
                    w as int,
                    h as int,
                    s as int,
                )[k] == bit_at(chunk@, t * (cap as int) + k),
            forall|t: int, k: int|
                0 <= t < frames@.len() && 0 <= k < cap ==> #[trigger] block_rgb_uniform(
                    frames@[t].image@,
                    w as int,
                    s as int,
                    k,
                    bit_color(bit_at(chunk@, t * (cap as int) + k)),
                    bit_color(bit_at(chunk@, t * (cap as int) + k)),
                    bit_color(bit_at(chunk@, t * (cap as int) + k)),
                ),
        decreases
                chunk@.len() - index + (if done {
                    0int
                } else {
                    1int
                }),
    {
        let ghost lb = frames@.len() as int;
        let ghost start = index as int;
        let mut fr = EmbedSource::new(s, w, h);
        let outcome = etch_bw(&mut fr, chunk, &mut index);
        frames.push(fr);
        if outcome == EtchOutcome::ChunkExhausted {
            done = true;
        }
        proof {
            assert(lb * (cap as int) + cap as int == (lb + 1) * (cap as int)) by (nonlinear_arith);
            assert forall|t: int, k: int|
                0 <= t < frames@.len() && 0 <= k < cap implies #[trigger] frame_bits(
                frames@[t].image@,
                w as int,
                h as int,
                s as int,
            )[k] == bit_at(chunk@, t * (cap as int) + k) by {
                if t == lb {
                    assert(t * (cap as int) == start);
                }
            }
            assert forall|t: int, k: int|
                0 <= t < frames@.len() && 0 <= k < cap implies #[trigger] block_rgb_uniform(
                frames@[t].image@,
                w as int,
                s as int,
                k,
                bit_color(bit_at(chunk@, t * (cap as int) + k)),
                bit_color(bit_at(chunk@, t * (cap as int) + k)),
                bit_color(bit_at(chunk@, t * (cap as int) + k)),
            ) by {
                if t == lb {
                    assert(t * (cap as int) == start);
                }
            }
            if outcome == EtchOutcome::ChunkExhausted {
                lemma_frames_exact(lb, cap as int, chunk@.len() as int);
            }
        }
    }
    frames
}

/// One encode worker for Color payload: as the Binary worker, three bytes
/// per block.
pub fn etch_worker_color(chunk: &Vec<u8>, settings: &Settings) -> (frames: Vec<EmbedSource>)
    requires
        settings.valid(),
        1 <= chunk@.len(),
    ensures
        ({
            let w = settings.width as int;
            let h = settings.height as int;
            let s = settings.size as int;
            let cap = block_count(w, h, s);
            &&& frames@.len() == spec_total_frames(chunk@.len() as int, 3 * cap)
            &&& forall|t: int|
                0 <= t < frames@.len() ==> (#[trigger] frames@[t]).wf() && frames@[t].size
                    == settings.size && frames@[t].frame_size == (Size {
                    width: settings.width,
                    height: settings.height,
                })
            &&& forall|t: int, u: int|
                0 <= t < frames@.len() && 0 <= u < 3 * cap ==> #[trigger] frame_bytes(
                    frames@[t].image@,
                    w,
                    h,
                    s,
                )[u] == byte_at(chunk@, t * (3 * cap) + u)
            &&& forall|t: int, k: int|
                0 <= t < frames@.len() && 0 <= k < cap ==> #[trigger] block_rgb_uniform(
                    frames@[t].image@,
                    w,
                    s,
                    k,
                    byte_at(chunk@, t * (3 * cap) + 3 * k),
                    byte_at(chunk@, t * (3 * cap) + 3 * k + 1),
                    byte_at(chunk@, t * (3 * cap) + 3 * k + 2),
                )
        }),
{
    let w: i32 = settings.width;
    let h: i32 = settings.height;
    let s: i32 = settings.size;
    proof {
        assert((w as int / s as int) * (h as int / s as int) <= 16384 * 16384 && (w as int / s as int)
            * (h as int / s as int) >= 1) by (nonlinear_arith)
            requires
                1 <= s <= w <= 16384,
                s <= h <= 16384,
        ;
    }
    let bpr: usize = (w / s) as usize;
    let brr: usize = (h / s) as usize;
    let cap: usize = bpr * brr;
    let mut frames: Vec<EmbedSource> = Vec::new();
    let mut index: usize = 0;
    let mut done: bool = false;
    while !done
        invariant
            settings.valid(),
            w == settings.width,
            h == settings.height,
            s == settings.size,
            cap == block_count(w as int, h as int, s as int),
            1 <= cap <= 0x10000000,
            1 <= chunk@.len(),
            !done ==> index as int == frames@.len() * (3 * cap as int) && index < chunk@.len(),
            done ==> index == chunk@.len() && frames@.len() as int == spec_total_frames(
                chunk@.len() as int,
                3 * cap as int,
            ),
            forall|t: int|
                0 <= t < frames@.len() ==> (#[trigger] frames@[t]).wf() && frames@[t].size == s
                    && frames@[t].frame_size == (Size { width: w, height: h }),
            forall|t: int, u: int|
                0 <= t < frames@.len() && 0 <= u < 3 * cap ==> #[trigger] frame_bytes(
                    frames@[t].image@,
                    w as int,
                    h as int,
                    s as int,
                )[u] == byte_at(chunk@, t * (3 * cap as int) + u),
            forall|t: int, k: int|
                0 <= t < frames@.len() && 0 <= k < cap ==> #[trigger] block_rgb_uniform(
                    frames@[t].image@,
                    w as int,
                    s as int,
                    k,
                    byte_at(chunk@, t * (3 * cap as int) + 3 * k),
                    byte_at(chunk@, t * (3 * cap as int) + 3 * k + 1),
                    byte_at(chunk@, t * (3 * cap as int) + 3 * k + 2),
                ),
        decreases
                chunk@.len() - index + (if done {
                    0int
                } else {
                    1int
                }),
    {
        let ghost lb = frames@.len() as int;
        let ghost start = index as int;
        let mut fr = EmbedSource::new(s, w, h);
        let outcome = etch_color(&mut fr, chunk, &mut index);
        frames.push(fr);
        if outcome == EtchOutcome::ChunkExhausted {
            done = true;
        }
        proof {
            assert(lb * (3 * cap as int) + 3 * (cap as int) == (lb + 1) * (3 * cap as int))
                by (nonlinear_arith);
            assert forall|t: int, u: int|
                0 <= t < frames@.len() && 0 <= u < 3 * cap implies #[trigger] frame_bytes(
                frames@[t].image@,
                w as int,
                h as int,
                s as int,
            )[u] == byte_at(chunk@, t * (3 * cap as int) + u) by {
                if t == lb {
                    assert(t * (3 * cap as int) == start);
                }
            }
            assert forall|t: int, k: int|
                0 <= t < frames@.len() && 0 <= k < cap implies #[trigger] block_rgb_uniform(
                frames@[t].image@,
                w as int,
                s as int,
                k,
                byte_at(chunk@, t * (3 * cap as int) + 3 * k),
                byte_at(chunk@, t * (3 * cap as int) + 3 * k + 1),
                byte_at(chunk@, t * (3 * cap as int) + 3 * k + 2),
            ) by {
                if t == lb {
                    assert(t * (3 * cap as int) == start);
                }
            }
            if outcome == EtchOutcome::ChunkExhausted {
                lemma_frames_exact(lb, 3 * cap as int, chunk@.len() as int);
            }
        }
    }
    frames
}

/// A chunk cut from the payload reads back the payload's own unit at every
/// in-range position; past the chunk's end both sides read the zero padding,
/// provided the chunk reaches the payload's end.
proof fn lemma_chunk_window_bit(chunk: Seq<bool>, data: Seq<bool>, pos0: int, i: int)
    requires
        0 <= pos0,
        0 <= i,
        pos0 + chunk.len() <= data.len(),
        chunk == data.subrange(pos0, pos0 + chunk.len()),
        i < chunk.len() || pos0 + chunk.len() == data.len(),
    ensures
        bit_at(chunk, i) == bit_at(data, pos0 + i),
{
    if i < chunk.len() {
        assert(chunk[i] == data[pos0 + i]);
    }
}

/// As [`lemma_chunk_window_bit`], for byte payloads.
proof fn lemma_chunk_window_byte(chunk: Seq<u8>, data: Seq<u8>, pos0: int, i: int)
    requires
        0 <= pos0,
        0 <= i,
        pos0 + chunk.len() <= data.len(),
        chunk == data.subrange(pos0, pos0 + chunk.len()),
        i < chunk.len() || pos0 + chunk.len() == data.len(),
    ensures
        byte_at(chunk, i) == byte_at(data, pos0 + i),
{
    if i < chunk.len() {
        assert(chunk[i] == data[pos0 + i]);
    }
}

/// Partitions the Binary payload into contiguous chunks of a whole number
/// of frames each, runs one worker per chunk in chunk order, and
/// concatenates the workers' frame lists. Because each chunk before the last
/// holds a whole number of frames, the assembled list is frame-for-frame the
/// list a single worker would produce over the whole payload.
pub fn etch_frames_bw(data: &Vec<bool>, settings: &Settings) -> (frames: Vec<EmbedSource>)
    requires
        settings.valid(),
        1 <= data@.len() <= 0x80000000,
    ensures
        ({
            let w = settings.width as int;
            let h = settings.height as int;
            let s = settings.size as int;
            let cap = block_count(w, h, s);
            &&& frames@.len() == spec_total_frames(data@.len() as int, cap)
            &&& forall|t: int|
                0 <= t < frames@.len() ==> (#[trigger] frames@[t]).wf() && frames@[t].size
                    == settings.size && frames@[t].frame_size == (Size {
                    width: settings.width,
                    height: settings.height,
                })
            &&& binary_windows(
                Seq::new(frames@.len(), |t: int| frames@[t].image@),
                data@,
                *settings,
            )
            &&& forall|t: int, k: int|
                0 <= t < frames@.len() && 0 <= k < cap ==> #[trigger] block_rgb_uniform(
                    frames@[t].image@,
                    w,
                    s,
                    k,
                    bit_color(bit_at(data@, t * cap + k)),
                    bit_color(bit_at(data@, t * cap + k)),
                    bit_color(bit_at(data@, t * cap + k)),
                )
        }),
{
    let w: i32 = settings.width;
    let h: i32 = settings.height;
    let s: i32 = settings.size;
    proof {
        assert((w as int / s as int) * (h as int / s as int) <= 16384 * 16384 && (w as int / s as int)
            * (h as int / s as int) >= 1) by (nonlinear_arith)
            requires
                1 <= s <= w <= 16384,
                s <= h <= 16384,
        ;
    }
    let bpr: usize = (w / s) as usize;
    let brr: usize = (h / s) as usize;
    let cap: usize = bpr * brr;
    let units: usize = data.len();
    proof {
        lemma_ceil_bounds(units as int, cap as int);
    }
    let total_frames: usize = (units + cap - 1) / cap;
    let chunk_frames: usize = total_frames / settings.threads + 1;
    proof {
        assert((total_frames as int) / (settings.threads as int) <= total_frames as int)
            by (nonlinear_arith)
            requires
                settings.threads as int >= 1,
                total_frames as int >= 0,
        ;
        assert((chunk_frames as int) * (cap as int) <= (total_frames as int) * (cap as int) + (
        cap as int) && (chunk_frames as int) * (cap as int) >= cap as int) by (nonlinear_arith)
            requires
                1 <= chunk_frames as int <= total_frames as int + 1,
                1 <= cap as int,
        ;
        assert((total_frames as int) * (cap as int) <= units as int + cap as int - 1);
    }
    let chunk_units: usize = chunk_frames * cap;
    let mut frames: Vec<EmbedSource> = Vec::new();
    let mut pos: usize = 0;
    while pos < units
        invariant
            settings.valid(),
            w == settings.width,
            h == settings.height,
            s == settings.size,
            cap == block_count(w as int, h as int, s as int),
            1 <= cap <= 0x10000000,
            1 <= units == data@.len() <= 0x80000000,
            chunk_units as int == (chunk_frames as int) * (cap as int),
            1 <= chunk_frames,
            cap <= chunk_units <= 0xC0000000,
            pos <= units,
            pos < units ==> pos as int == frames@.len() * (cap as int),
            pos == units ==> frames@.len() as int == spec_total_frames(units as int, cap as int),
            forall|t: int|
                0 <= t < frames@.len() ==> (#[trigger] frames@[t]).wf() && frames@[t].size == s
                    && frames@[t].frame_size == (Size { width: w, height: h }),
            forall|t: int, k: int|
                0 <= t < frames@.len() && 0 <= k < cap ==> #[trigger] frame_bits(
                    frames@[t].image@,
                    w as int,
                    h as int,
                    s as int,
                )[k] == bit_at(data@, t * (cap as int) + k),
            forall|t: int, k: int|
                0 <= t < frames@.len() && 0 <= k < cap ==> #[trigger] block_rgb_uniform(
                    frames@[t].image@,
                    w as int,
                    s as int,
                    k,
                    bit_color(bit_at(data@, t * (cap as int) + k)),
                    bit_color(bit_at(data@, t * (cap as int) + k)),
                    bit_color(bit_at(data@, t * (cap as int) + k)),
                ),
        decreases units - pos,
    {
        let remaining: usize = units - pos;
        let clen: usize = if remaining < chunk_units {
            remaining
        } else {
            chunk_units
        };
        let mut chunk: Vec<bool> = Vec::new();
        let mut qi: usize = 0;
        while qi < clen
            invariant
                qi <= clen,
                pos + clen <= units,
                units == data@.len(),
                chunk@ == data@.subrange(pos as int, pos as int + qi as int),
            decreases clen - qi,
        {
            chunk.push(data[pos + qi]);
            proof {
                assert(chunk@ =~= data@.subrange(pos as int, pos as int + qi as int + 1));
            }
            qi = qi + 1;
        }
        let ghost lb = frames@.len() as int;
        let ghost pos0 = pos as int;
        let mut worker_frames = etch_worker_bw(&chunk, settings);
        let ghost wcount = worker_frames@.len() as int;
        let ghost wseq = worker_frames@;
        frames.append(&mut worker_frames);
        pos = pos + clen;
        proof {
            let capi = cap as int;
            assert forall|t: int, k: int|
                0 <= t < frames@.len() && 0 <= k < cap implies #[trigger] frame_bits(
                frames@[t].image@,
                w as int,
                h as int,
                s as int,
            )[k] == bit_at(data@, t * capi + k) by {
                if t >= lb {
                    let tl = t - lb;
                    assert(frames@[t] == wseq[tl]);
                    assert(frame_bits(wseq[tl].image@, w as int, h as int, s as int)[k] == bit_at(
                        chunk@,
                        tl * capi + k,
                    ));
                    assert((lb + tl) * capi == lb * capi + tl * capi) by (nonlinear_arith);
                    if tl * capi + k < clen {
                        assert(chunk@[tl * capi + k] == data@[pos0 + tl * capi + k]);
                    } else {
                        if clen == chunk_units {
                            assert(tl < wcount);
                            assert(wcount == spec_total_frames(clen as int, capi));
                            lemma_frames_of_full_chunk(chunk_frames as int, capi);
                            assert(tl <= chunk_frames as int - 1);
                            assert(tl * capi + capi <= (chunk_frames as int) * capi)
                                by (nonlinear_arith)
                                requires
                                    tl <= chunk_frames as int - 1,
                                    capi >= 1,
                            ;
                            assert(false);
                        }
                        assert(pos0 + clen == units as int);
                    }
                }
            }
            assert forall|t: int, k: int|
                0 <= t < frames@.len() && 0 <= k < cap implies #[trigger] block_rgb_uniform(
                frames@[t].image@,
                w as int,
                s as int,
                k,
                bit_color(bit_at(data@, t * capi + k)),
                bit_color(bit_at(data@, t * capi + k)),
                bit_color(bit_at(data@, t * capi + k)),
            ) by {
                if t >= lb {
                    let tl = t - lb;
                    assert(frames@[t] == wseq[tl]);
                    assert(block_rgb_uniform(
                        wseq[tl].image@,
                        w as int,
                        s as int,
                        k,
                        bit_color(bit_at(chunk@, tl * capi + k)),
                        bit_color(bit_at(chunk@, tl * capi + k)),
                        bit_color(bit_at(chunk@, tl * capi + k)),
                    ));
                    assert((lb + tl) * capi == lb * capi + tl * capi) by (nonlinear_arith);
                    if clen < chunk_units {
                        assert(pos0 + clen == units as int);
                    } else {
                        assert(tl < wcount);
                        assert(wcount == spec_total_frames(clen as int, capi));
                        lemma_frames_of_full_chunk(chunk_frames as int, capi);
                        assert(tl <= chunk_frames as int - 1);
                        assert(tl * capi + capi <= (chunk_frames as int) * capi) by (nonlinear_arith)
                            requires
                                tl <= chunk_frames as int - 1,
                                capi >= 1,
                        ;
                    }
                    lemma_chunk_window_bit(chunk@, data@, pos0, tl * capi + k);
                    assert(bit_at(chunk@, tl * capi + k) == bit_at(data@, t * capi + k));
                }
            }
            if pos == units {
                lemma_ceil_add_multiple(lb, clen as int, cap as int);
            } else {
                assert(clen == chunk_units);
                lemma_frames_of_full_chunk(chunk_frames as int, cap as int);
                assert((lb + chunk_frames as int) * (cap as int) == lb * (cap as int) + (
                chunk_frames as int) * (cap as int)) by (nonlinear_arith);
            }
        }
    }
    proof {
        let imgs = Seq::new(frames@.len(), |t: int| frames@[t].image@);
        assert forall|t: int, k: int|
            0 <= t < imgs.len() && 0 <= k < block_count(w as int, h as int, s as int) implies
            #[trigger] frame_bits(imgs[t], w as int, h as int, s as int)[k] == bit_at(
            data@,
            t * block_count(w as int, h as int, s as int) + k,
        ) by {
            assert(imgs[t] == frames@[t].image@);
            assert(frame_bits(frames@[t].image@, w as int, h as int, s as int)[k] == bit_at(
                data@,
                t * (cap as int) + k,
            ));
        }
    }
    frames
}

/// As [`etch_frames_bw`], for Color payload bytes at three bytes per block.
#[verifier::rlimit(100)]
#[verifier::spinoff_prover]
pub fn etch_frames_color(data: &Vec<u8>, settings: &Settings) -> (frames: Vec<EmbedSource>)
    requires
        settings.valid(),
        1 <= data@.len() <= 0x80000000,
    ensures
        ({
            let w = settings.width as int;
            let h = settings.height as int;
            let s = settings.size as int;
            let cap = block_count(w, h, s);
            &&& frames@.len() == spec_total_frames(data@.len() as int, 3 * cap)
            &&& forall|t: int|
                0 <= t < frames@.len() ==> (#[trigger] frames@[t]).wf() && frames@[t].size
                    == settings.size && frames@[t].frame_size == (Size {
                    width: settings.width,
                    height: settings.height,
                })
            &&& color_windows(
                Seq::new(frames@.len(), |t: int| frames@[t].image@),
                data@,
                *settings,
            )
            &&& forall|t: int, k: int|
                0 <= t < frames@.len() && 0 <= k < cap ==> #[trigger] block_rgb_uniform(
                    frames@[t].image@,
                    w,
                    s,
                    k,
                    byte_at(data@, t * (3 * cap) + 3 * k),
                    byte_at(data@, t * (3 * cap) + 3 * k + 1),
                    byte_at(data@, t * (3 * cap) + 3 * k + 2),
                )
        }),
{
    let w: i32 = settings.width;
    let h: i32 = settings.height;
    let s: i32 = settings.size;
    proof {
        assert((w as int / s as int) * (h as int / s as int) <= 16384 * 16384 && (w as int / s as int)
            * (h as int / s as int) >= 1) by (nonlinear_arith)
            requires
                1 <= s <= w <= 16384,
                s <= h <= 16384,
        ;
    }
    let bpr: usize = (w / s) as usize;
    let brr: usize = (h / s) as usize;
    let cap: usize = bpr * brr;
    let capu: usize = 3 * cap;
    let units: usize = data.len();
    proof {
        lemma_ceil_bounds(units as int, capu as int);
    }
    let total_frames: usize = (units + capu - 1) / capu;
    let chunk_frames: usize = total_frames / settings.threads + 1;
    proof {
        assert((total_frames as int) / (settings.threads as int) <= total_frames as int)
            by (nonlinear_arith)
            requires
                settings.threads as int >= 1,
                total_frames as int >= 0,
        ;
        assert((chunk_frames as int) * (capu as int) <= (total_frames as int) * (capu as int) + (
        capu as int) && (chunk_frames as int) * (capu as int) >= capu as int) by (nonlinear_arith)
            requires
                1 <= chunk_frames as int <= total_frames as int + 1,
                1 <= capu as int,
        ;
        assert((total_frames as int) * (capu as int) <= units as int + capu as int - 1);
    }
    let chunk_units: usize = chunk_frames * capu;
    let mut frames: Vec<EmbedSource> = Vec::new();
    let mut pos: usize = 0;
    while pos < units
        invariant
            settings.valid(),
            w == settings.width,
            h == settings.height,
            s == settings.size,
            cap == block_count(w as int, h as int, s as int),
            capu as int == 3 * cap as int,
            1 <= cap <= 0x10000000,
            1 <= units == data@.len() <= 0x80000000,
            chunk_units as int == (chunk_frames as int) * (capu as int),
            1 <= chunk_frames,
            capu <= chunk_units <= 0xE0000000,
            pos <= units,
            pos < units ==> pos as int == frames@.len() * (capu as int),
            pos == units ==> frames@.len() as int == spec_total_frames(units as int, capu as int),
            forall|t: int|
                0 <= t < frames@.len() ==> (#[trigger] frames@[t]).wf() && frames@[t].size == s
                    && frames@[t].frame_size == (Size { width: w, height: h }),
            forall|t: int, u: int|
                0 <= t < frames@.len() && 0 <= u < capu ==> #[trigger] frame_bytes(
                    frames@[t].image@,
                    w as int,
                    h as int,
                    s as int,
                )[u] == byte_at(data@, t * (capu as int) + u),
            forall|t: int, k: int|
                0 <= t < frames@.len() && 0 <= k < cap ==> #[trigger] block_rgb_uniform(
                    frames@[t].image@,
                    w as int,
                    s as int,
                    k,
                    byte_at(data@, t * (capu as int) + 3 * k),
                    byte_at(data@, t * (capu as int) + 3 * k + 1),
                    byte_at(data@, t * (capu as int) + 3 * k + 2),
                ),
        decreases units - pos,
    {
        let remaining: usize = units - pos;
        let clen: usize = if remaining < chunk_units {
            remaining
        } else {
            chunk_units
        };
        let mut chunk: Vec<u8> = Vec::new();
        let mut qi: usize = 0;
        while qi < clen
            invariant
                qi <= clen,
                pos + clen <= units,
                units == data@.len(),
                chunk@ == data@.subrange(pos as int, pos as int + qi as int),
            decreases clen - qi,
        {
            chunk.push(data[pos + qi]);
            proof {
                assert(chunk@ =~= data@.subrange(pos as int, pos as int + qi as int + 1));
            }
            qi = qi + 1;
        }
        let ghost lb = frames@.len() as int;
        let ghost pos0 = pos as int;
        let mut worker_frames = etch_worker_color(&chunk, settings);
        let ghost wcount = worker_frames@.len() as int;
        let ghost wseq = worker_frames@;
        frames.append(&mut worker_frames);
        pos = pos + clen;
        proof {
            let capi = capu as int;
            assert forall|t: int, u: int|
                0 <= t < frames@.len() && 0 <= u < capu implies #[trigger] frame_bytes(
                frames@[t].image@,
                w as int,
                h as int,
                s as int,
            )[u] == byte_at(data@, t * capi + u) by {
                if t >= lb {
                    let tl = t - lb;
                    assert(frames@[t] == wseq[tl]);
                    assert(frame_bytes(wseq[tl].image@, w as int, h as int, s as int)[u] == byte_at(
                        chunk@,
                        tl * capi + u,
                    ));
                    assert((lb + tl) * capi == lb * capi + tl * capi) by (nonlinear_arith);
                    if tl * capi + u < clen {
                        assert(chunk@[tl * capi + u] == data@[pos0 + tl * capi + u]);
                    } else {
                        if clen == chunk_units {
                            assert(tl < wcount);
                            assert(wcount == spec_total_frames(clen as int, capi));
                            lemma_frames_of_full_chunk(chunk_frames as int, capi);
                            assert(tl <= chunk_frames as int - 1);
                            assert(tl * capi + capi <= (chunk_frames as int) * capi)
                                by (nonlinear_arith)
                                requires
                                    tl <= chunk_frames as int - 1,
                                    capi >= 1,
                            ;
                            assert(false);
                        }
                        assert(pos0 + clen == units as int);
                    }
                }
            }
            assert forall|t: int, k: int|
                0 <= t < frames@.len() && 0 <= k < cap implies #[trigger] block_rgb_uniform(
                frames@[t].image@,
                w as int,
                s as int,
                k,
                byte_at(data@, t * capi + 3 * k),
                byte_at(data@, t * capi + 3 * k + 1),
                byte_at(data@, t * capi + 3 * k + 2),
            ) by {
                if t >= lb {
                    let tl = t - lb;
                    assert(frames@[t] == wseq[tl]);
                    assert(block_rgb_uniform(
                        wseq[tl].image@,
                        w as int,
                        s as int,
                        k,
                        byte_at(chunk@, tl * capi + 3 * k),
                        byte_at(chunk@, tl * capi + 3 * k + 1),
                        byte_at(chunk@, tl * capi + 3 * k + 2),
                    ));
                    assert((lb + tl) * capi == lb * capi + tl * capi) by (nonlinear_arith);
                    if clen < chunk_units {
                        assert(pos0 + clen == units as int);
                    } else {
                        assert(tl < wcount);
                        assert(wcount == spec_total_frames(clen as int, capi));
                        lemma_frames_of_full_chunk(chunk_frames as int, capi);
                        assert(tl <= chunk_frames as int - 1);
                        assert(tl * capi + capi <= (chunk_frames as int) * capi) by (nonlinear_arith)
                            requires
                                tl <= chunk_frames as int - 1,
                                capi >= 1,
                        ;
                    }
                    lemma_chunk_window_byte(chunk@, data@, pos0, tl * capi + 3 * k);
                    lemma_chunk_window_byte(chunk@, data@, pos0, tl * capi + 3 * k + 1);
                    lemma_chunk_window_byte(chunk@, data@, pos0, tl * capi + 3 * k + 2);
                }
            }
            if pos == units {
                lemma_ceil_add_multiple(lb, clen as int, capu as int);
            } else {
                assert(clen == chunk_units);
                lemma_frames_of_full_chunk(chunk_frames as int, capu as int);
                assert((lb + chunk_frames as int) * (capu as int) == lb * (capu as int) + (
                chunk_frames as int) * (capu as int)) by (nonlinear_arith);
            }
        }
    }
    proof {
        let imgs = Seq::new(frames@.len(), |t: int| frames@[t].image@);
        assert forall|t: int, u: int|
            0 <= t < imgs.len() && 0 <= u < 3 * block_count(w as int, h as int, s as int) implies
            #[trigger] frame_bytes(imgs[t], w as int, h as int, s as int)[u] == byte_at(
            data@,
            t * (3 * block_count(w as int, h as int, s as int)) + u,
        ) by {
            assert(imgs[t] == frames@[t].image@);
            assert(frame_bytes(frames@[t].image@, w as int, h as int, s as int)[u] == byte_at(
                data@,
                t * (capu as int) + u,
            ));
        }
    }
    frames
}

/// Encodes a payload into the full ordered frame list: the instruction frame
/// first, then every data frame in payload order. An empty payload is
/// rejected before any work is done.
pub fn etch(data: Data, settings: Settings) -> (r: Result<Vec<EmbedSource>, EtchError>)
    requires
        settings.valid(),
        data.unit_count() <= 0x80000000,
    ensures
        ({
            let w = settings.width as int;
            let h = settings.height as int;
            let s = settings.size as int;
            let units = data.unit_count();
            let capu = units_per_frame(settings, data.out_mode);
            match r {
                Err(e) => e == EtchError::EmptyInput && units == 0,
                Ok(frames) => {
                    &&& units >= 1
                    &&& frames@.len() == 1 + spec_total_frames(units, capu)
                    &&& frames@[0].wf()
                    &&& frames@[0].size == 5
                    &&& frames@[0].frame_size == (Size {
                        width: settings.width,
                        height: settings.height,
                    })
                    &&& instruction_frame_encodes(frames@[0].image@, settings, data.out_mode, units)
                    &&& forall|t: int|
                        1 <= t < frames@.len() ==> (#[trigger] frames@[t]).wf() && frames@[t].size
                            == settings.size && frames@[t].frame_size == (Size {
                            width: settings.width,
                            height: settings.height,
                        })
                    &&& (data.out_mode == OutputMode::Binary ==> binary_windows(
                        Seq::new((frames@.len() - 1) as nat, |t: int| frames@[1 + t].image@),
                        data.binary@,
                        settings,
                    ))
                    &&& (data.out_mode == OutputMode::Color ==> color_windows(
                        Seq::new((frames@.len() - 1) as nat, |t: int| frames@[1 + t].image@),
                        data.bytes@,
                        settings,
                    ))
                    &&& (data.out_mode == OutputMode::Binary ==> forall|t: int, k: int|
                        0 <= t < frames@.len() - 1 && 0 <= k < block_count(w, h, s)
                            ==> #[trigger] block_rgb_uniform(
                            frames@[1 + t].image@,
                            w,
                            s,
                            k,
                            bit_color(bit_at(data.binary@, t * block_count(w, h, s) + k)),
                            bit_color(bit_at(data.binary@, t * block_count(w, h, s) + k)),
                            bit_color(bit_at(data.binary@, t * block_count(w, h, s) + k)),
                        ))
                    &&& (data.out_mode == OutputMode::Color ==> forall|t: int, k: int|
                        0 <= t < frames@.len() - 1 && 0 <= k < block_count(w, h, s)
                            ==> #[trigger] block_rgb_uniform(
                            frames@[1 + t].image@,
                            w,
                            s,
                            k,
                            byte_at(data.bytes@, t * (3 * block_count(w, h, s)) + 3 * k),
                            byte_at(data.bytes@, t * (3 * block_count(w, h, s)) + 3 * k + 1),
                            byte_at(data.bytes@, t * (3 * block_count(w, h, s)) + 3 * k + 2),
                        ))
                },
            }
        }),
{
    let empty: bool = match data.out_mode {
        OutputMode::Binary => data.binary.len() == 0,
        OutputMode::Color => data.bytes.len() == 0,
    };
    if empty {
        return Err(EtchError::EmptyInput);
    }
    let instruction_frame = etch_instructions(&settings, &data);
    let mut complete_frames: Vec<EmbedSource> = Vec::new();
    complete_frames.push(instruction_frame);
    let mut data_frames: Vec<EmbedSource> = match data.out_mode {
        OutputMode::Binary => etch_frames_bw(&data.binary, &settings),
        OutputMode::Color => etch_frames_color(&data.bytes, &settings),
    };
    let ghost dseq = data_frames@;
    complete_frames.append(&mut data_frames);
    proof {
        assert(Seq::new(dseq.len(), |t: int| complete_frames@[1 + t].image@) =~= Seq::new(
            dseq.len(),
            |t: int| dseq[t].image@,
        ));
        let w = settings.width as int;
        let h = settings.height as int;
        let s = settings.size as int;
        let cap = block_count(w, h, s);
        if data.out_mode == OutputMode::Binary {
            assert forall|t: int, k: int|
                0 <= t < complete_frames@.len() - 1 && 0 <= k < cap implies
                #[trigger] block_rgb_uniform(
                complete_frames@[1 + t].image@,
                w,
                s,
                k,
                bit_color(bit_at(data.binary@, t * cap + k)),
                bit_color(bit_at(data.binary@, t * cap + k)),
                bit_color(bit_at(data.binary@, t * cap + k)),
            ) by {
                assert(complete_frames@[1 + t] == dseq[t]);
                assert(block_rgb_uniform(
                    dseq[t].image@,
                    w,
                    s,
                    k,
                    bit_color(bit_at(data.binary@, t * cap + k)),
                    bit_color(bit_at(data.binary@, t * cap + k)),
                    bit_color(bit_at(data.binary@, t * cap + k)),
                ));
            }
        } else {
            assert forall|t: int, k: int|
                0 <= t < complete_frames@.len() - 1 && 0 <= k < cap implies
                #[trigger] block_rgb_uniform(
                complete_frames@[1 + t].image@,
                w,
                s,
                k,
                byte_at(data.bytes@, t * (3 * cap) + 3 * k),
                byte_at(data.bytes@, t * (3 * cap) + 3 * k + 1),
                byte_at(data.bytes@, t * (3 * cap) + 3 * k + 2),
            ) by {
                assert(complete_frames@[1 + t] == dseq[t]);
                assert(block_rgb_uniform(
                    dseq[t].image@,
                    w,
                    s,
                    k,
                    byte_at(data.bytes@, t * (3 * cap) + 3 * k),
                    byte_at(data.bytes@, t * (3 * cap) + 3 * k + 1),
                    byte_at(data.bytes@, t * (3 * cap) + 3 * k + 2),
                ));
            }
        }
    }
    Ok(complete_frames)
}

/// What the decoder recovers from the data frames of a Binary-mode video,
/// processed sequentially from data frame `j`: each frame's full bit grid,
/// the final frame truncated to the recorded element count, concatenated.
/// The first shortfall decides the error: a frame that cannot be wrapped at
/// the recorded block size, a container with fewer frames than the header
/// promises, or a final count exceeding the final frame's capacity.
pub open spec fn spec_read_data_bin(
    frames: Seq<RawFrame>,
    fi: int,
    fc: int,
    size: int,
    j: int,
) -> Result<Seq<bool>, EtchError>
    decreases fi + 1 - j,
{
    if j > fi {
        Ok(Seq::empty())
    } else if 1 + j >= frames.len() {
        Err(EtchError::ContainerReadFailed)
    } else if !raw_frame_admissible(frames[1 + j], size, false) {
        Err(EtchError::DimensionMismatch)
    } else {
        let fb = frame_bits(
            frames[1 + j].image@,
            frames[1 + j].width as int,
            frames[1 + j].height as int,
            size,
        );
        if j == fi {
            if fc > fb.len() {
                Err(EtchError::HeaderDecodeFailed)
            } else {
                Ok(fb.take(fc))
            }
        } else {
            match spec_read_data_bin(frames, fi, fc, size, j + 1) {
                Ok(rest) => Ok(fb + rest),
                Err(e) => Err(e),
            }
        }
    }
}

/// As [`spec_read_data_bin`], for Color mode: three bytes per block.
pub open spec fn spec_read_data_color(
    frames: Seq<RawFrame>,
    fi: int,
    fc: int,
    size: int,
    j: int,
) -> Result<Seq<u8>, EtchError>
    decreases fi + 1 - j,
{
    if j > fi {
        Ok(Seq::empty())
    } else if 1 + j >= frames.len() {
        Err(EtchError::ContainerReadFailed)
    } else if !raw_frame_admissible(frames[1 + j], size, false) {
        Err(EtchError::DimensionMismatch)
    } else {
        let fb = frame_bytes(
            frames[1 + j].image@,
            frames[1 + j].width as int,
            frames[1 + j].height as int,
            size,
        );
        if j == fi {
            if fc > fb.len() {
                Err(EtchError::HeaderDecodeFailed)
            } else {
                Ok(fb.take(fc))
            }
        } else {
            match spec_read_data_color(frames, fi, fc, size, j + 1) {
                Ok(rest) => Ok(fb + rest),
                Err(e) => Err(e),
            }
        }
    }
}

/// The byte sequence a frame list decodes to, or the first failure met:
/// frame zero parsed as the instruction frame, then the data frames decoded
/// at the recorded block size, the last truncated to the recorded element
/// count; Binary-mode bits are packed into bytes only after the whole
/// truncated stream is assembled.
pub open spec fn spec_read(frames: Seq<RawFrame>) -> Result<Seq<u8>, EtchError> {
    if frames.len() == 0 {
        Err(EtchError::ContainerReadFailed)
    } else if !raw_frame_admissible(frames[0], 5, true) {
        Err(EtchError::DimensionMismatch)
    } else {
        let ws = spec_words_of_bits(
            frame_bits(frames[0].image@, frames[0].width as int, frames[0].height as int, 5),
        );
        if ws.len() < 4 || ws[1] > i32::MAX as u32 || ws[2] > i32::MAX as u32 || ws[3] > i32::MAX as u32 {
            Err(EtchError::HeaderDecodeFailed)
        } else if ws[0] == 0xFFFFFFFFu32 {
            spec_read_data_color(frames, ws[1] as int, ws[2] as int, ws[3] as int, 0)
        } else {
            match spec_read_data_bin(frames, ws[1] as int, ws[2] as int, ws[3] as int, 0) {
                Ok(bits) => Ok(spec_bytes_of_bits(bits)),
                Err(e) => Err(e),
            }
        }
    }
}

/// Decodes the data frames of a Binary-mode video, starting after the
/// instruction frame, as [`spec_read_data_bin`] prescribes.
fn read_frames_bin(
    rem: Vec<RawFrame>,
    Ghost(orig): Ghost<Seq<RawFrame>>,
    final_frame: i32,
    final_count: i32,
    size: i32,
) -> (r: Result<Vec<bool>, EtchError>)
    requires
        0 <= final_frame,
        0 <= final_count,
        1 <= size,
        orig.len() >= 1,
        rem@ == orig.skip(1),
    ensures
        match r {
            Ok(v) => spec_read_data_bin(orig, final_frame as int, final_count as int, size as int, 0)
                == Ok::<Seq<bool>, EtchError>(v@),
            Err(e) => spec_read_data_bin(
                orig,
                final_frame as int,
                final_count as int,
                size as int,
                0,
            ) == Err::<Seq<bool>, EtchError>(e),
        },
{
    let ghost fii = final_frame as int;
    let ghost fci = final_count as int;
    let mut rem = rem;
    let mut acc: Vec<bool> = Vec::new();
    proof {
        match spec_read_data_bin(orig, fii, fci, size as int, 0) {
            Ok(rest) => {
                assert(Seq::<bool>::empty() + rest =~= rest);
            },
            Err(_) => {},
        }
    }
    let mut j: i32 = 0;
    while j < final_frame
        invariant
            0 <= j <= final_frame,
            0 <= final_count,
            1 <= size,
            rem@ == orig.skip(1 + j as int),
            rem@.len() == orig.len() - 1 - j,
            orig.len() >= 1 + j,
            fii == final_frame as int,
            fci == final_count as int,
            spec_read_data_bin(orig, fii, fci, size as int, 0) == (match spec_read_data_bin(
                orig,
                fii,
                fci,
                size as int,
                j as int,
            ) {
                Ok(rest) => Ok::<Seq<bool>, EtchError>(acc@ + rest),
                Err(e) => Err::<Seq<bool>, EtchError>(e),
            }),
        decreases final_frame - j,
    {
        if rem.len() == 0 {
            return Err(EtchError::ContainerReadFailed);
        }
        let fj = rem.remove(0);
        proof {
            assert(orig.skip(1 + j as int).remove(0) =~= orig.skip(2 + j as int));
            assert(fj == orig[1 + j as int]);
        }
        let es = match EmbedSource::from(fj, size, false) {
            Ok(e) => e,
            Err(e) => {
                return Err(e);
            },
        };
        proof {
            assert(size as int <= es.frame_size.width as int && size as int
                <= es.frame_size.height as int) by (nonlinear_arith)
                requires
                    1 <= size as int,
                    1 <= es.frame_size.width as int,
                    1 <= es.frame_size.height as int,
                    es.frame_size.width as int % (size as int) == 0,
                    es.frame_size.height as int % (size as int) == 0,
            ;
        }
        let mut bits = read_bw(&es, j, final_frame, final_count);
        proof {
            let sj1 = spec_read_data_bin(orig, fii, fci, size as int, j as int + 1);
            match sj1 {
                Ok(rest) => {
                    assert((acc@ + bits@) + rest =~= acc@ + (bits@ + rest));
                },
                Err(_) => {},
            }
        }
        acc.append(&mut bits);
        j = j + 1;
    }
    if rem.len() == 0 {
        return Err(EtchError::ContainerReadFailed);
    }
    let fj = rem.remove(0);
    proof {
        assert(fj == orig[1 + j as int]);
    }
    let es = match EmbedSource::from(fj, size, false) {
        Ok(e) => e,
        Err(e) => {
            return Err(e);
        },
    };
    proof {
        assert(size as int <= es.frame_size.width as int && size as int
            <= es.frame_size.height as int) by (nonlinear_arith)
            requires
                1 <= size as int,
                1 <= es.frame_size.width as int,
                1 <= es.frame_size.height as int,
                es.frame_size.width as int % (size as int) == 0,
                es.frame_size.height as int % (size as int) == 0,
        ;
    }
    let wj: i32 = es.frame_size.width;
    let hj: i32 = es.frame_size.height;
    proof {
        assert((wj as int / size as int) * (hj as int / size as int) <= 16384 * 16384 && (wj as int
            / size as int) * (hj as int / size as int) >= 0) by (nonlinear_arith)
            requires
                1 <= size <= wj <= 16384,
                size <= hj <= 16384,
        ;
    }
    let capj: usize = ((wj / size) as usize) * ((hj / size) as usize);
    if (final_count as usize) > capj {
        return Err(EtchError::HeaderDecodeFailed);
    }
    let mut bits = read_bw(&es, j, final_frame, final_count);
    acc.append(&mut bits);
    Ok(acc)
}

/// Decodes the data frames of a Color-mode video, starting after the
/// instruction frame, as [`spec_read_data_color`] prescribes.
fn read_frames_color(
    rem: Vec<RawFrame>,
    Ghost(orig): Ghost<Seq<RawFrame>>,
    final_frame: i32,
    final_count: i32,
    size: i32,
) -> (r: Result<Vec<u8>, EtchError>)
    requires
        0 <= final_frame,
        0 <= final_count,
        1 <= size,
        orig.len() >= 1,
        rem@ == orig.skip(1),
    ensures
        match r {
            Ok(v) => spec_read_data_color(
                orig,
                final_frame as int,
                final_count as int,
                size as int,
                0,
            ) == Ok::<Seq<u8>, EtchError>(v@),
            Err(e) => spec_read_data_color(
                orig,
                final_frame as int,
                final_count as int,
                size as int,
                0,
            ) == Err::<Seq<u8>, EtchError>(e),
        },
{
    let ghost fii = final_frame as int;
    let ghost fci = final_count as int;
    let mut rem = rem;
    let mut acc: Vec<u8> = Vec::new();
    proof {
        match spec_read_data_color(orig, fii, fci, size as int, 0) {
            Ok(rest) => {
                assert(Seq::<u8>::empty() + rest =~= rest);
            },
            Err(_) => {},
        }
    }
    let mut j: i32 = 0;
    while j < final_frame
        invariant
            0 <= j <= final_frame,
            0 <= final_count,
            1 <= size,
            rem@ == orig.skip(1 + j as int),
            rem@.len() == orig.len() - 1 - j,
            orig.len() >= 1 + j,
            fii == final_frame as int,
            fci == final_count as int,
            spec_read_data_color(orig, fii, fci, size as int, 0) == (match spec_read_data_color(
                orig,
                fii,
                fci,
                size as int,
                j as int,
            ) {
                Ok(rest) => Ok::<Seq<u8>, EtchError>(acc@ + rest),
                Err(e) => Err::<Seq<u8>, EtchError>(e),
            }),
        decreases final_frame - j,
    {
        if rem.len() == 0 {
            return Err(EtchError::ContainerReadFailed);
        }
        let fj = rem.remove(0);
        proof {
            assert(orig.skip(1 + j as int).remove(0) =~= orig.skip(2 + j as int));
            assert(fj == orig[1 + j as int]);
        }
        let es = match EmbedSource::from(fj, size, false) {
            Ok(e) => e,
            Err(e) => {
                return Err(e);
            },
        };
        proof {
            assert(size as int <= es.frame_size.width as int && size as int
                <= es.frame_size.height as int) by (nonlinear_arith)
                requires
                    1 <= size as int,
                    1 <= es.frame_size.width as int,
                    1 <= es.frame_size.height as int,
                    es.frame_size.width as int % (size as int) == 0,
                    es.frame_size.height as int % (size as int) == 0,
            ;
        }
        let mut bytes = read_color(&es, j, final_frame, final_count);
        proof {
            let sj1 = spec_read_data_color(orig, fii, fci, size as int, j as int + 1);
            match sj1 {
                Ok(rest) => {
                    assert((acc@ + bytes@) + rest =~= acc@ + (bytes@ + rest));
                },
                Err(_) => {},
            }
        }
        acc.append(&mut bytes);
        j = j + 1;
    }
    if rem.len() == 0 {
        return Err(EtchError::ContainerReadFailed);
    }
    let fj = rem.remove(0);
    proof {
        assert(fj == orig[1 + j as int]);
    }
    let es = match EmbedSource::from(fj, size, false) {
        Ok(e) => e,
        Err(e) => {
            return Err(e);
        },
    };
    proof {
        assert(size as int <= es.frame_size.width as int && size as int
            <= es.frame_size.height as int) by (nonlinear_arith)
            requires
                1 <= size as int,
                1 <= es.frame_size.width as int,
                1 <= es.frame_size.height as int,
                es.frame_size.width as int % (size as int) == 0,
                es.frame_size.height as int % (size as int) == 0,
        ;
    }
    let wj: i32 = es.frame_size.width;
    let hj: i32 = es.frame_size.height;
    proof {
        assert((wj as int / size as int) * (hj as int / size as int) <= 16384 * 16384 && (wj as int
            / size as int) * (hj as int / size as int) >= 0) by (nonlinear_arith)
            requires
                1 <= size <= wj <= 16384,
                size <= hj <= 16384,
        ;
    }
    let capj: usize = ((wj / size) as usize) * ((hj / size) as usize);
    proof {
        assert(3 * capj as int <= 0x30000000);
    }
    if (final_count as usize) > 3 * capj {
        return Err(EtchError::HeaderDecodeFailed);
    }
    let mut bytes = read_color(&es, j, final_frame, final_count);
    acc.append(&mut bytes);
    Ok(acc)
}

/// Decodes a frame sequence read back from the container: parses frame zero
/// as the instruction frame, decodes each following data frame at the
/// recorded block size up to and including the recorded final frame,
/// truncates that frame's units to the recorded count, and returns the
/// concatenated payload bytes.
pub fn read(frames: Vec<RawFrame>) -> (r: Result<Vec<u8>, EtchError>)
    ensures
        match r {
            Ok(v) => spec_read(frames@) == Ok::<Seq<u8>, EtchError>(v@),
            Err(e) => spec_read(frames@) == Err::<Seq<u8>, EtchError>(e),
        },
{
    let ghost orig = frames@;
    let mut rem = frames;
    if rem.len() == 0 {
        return Err(EtchError::ContainerReadFailed);
    }
    let f0 = rem.remove(0);
    proof {
        assert(orig.remove(0) =~= orig.skip(1));
    }
    let instruction_source = match EmbedSource::from(f0, 5, true) {
        Ok(es) => es,
        Err(e) => {
            return Err(e);
        },
    };
    let header = match read_instructions(&instruction_source, 1) {
        Ok(t) => t,
        Err(e) => {
            return Err(e);
        },
    };
    let (out_mode, final_frame, final_count, hdr_settings, _end_marker_ok) = header;
    let size: i32 = hdr_settings.size;
    if size < 1 {
        if rem.len() == 0 {
            return Err(EtchError::ContainerReadFailed);
        }
        return Err(EtchError::DimensionMismatch);
    }
    match out_mode {
        OutputMode::Binary => {
            match read_frames_bin(rem, Ghost(orig), final_frame, final_count, size) {
                Ok(acc) => {
                    let out = translate_u8(acc);
                    Ok(out)
                },
                Err(e) => Err(e),
            }
        },
        OutputMode::Color => {
            read_frames_color(rem, Ghost(orig), final_frame, final_count, size)
        },
    }
}


/// Two bit streams that agree on one 32-bit window pack the same word there.
proof fn lemma_word_window(bits: Seq<bool>, hdr: Seq<bool>, j: int)
    requires
        0 <= j,
        32 * j + 32 <= bits.len(),
        32 * j + 32 <= hdr.len(),
        forall|i: int| 32 * j <= i < 32 * j + 32 ==> bits[i] == hdr[i],
    ensures
        spec_words_of_bits(bits)[j] == spec_words_of_bits(hdr)[j],
{
    assert(bits.subrange(32 * j, 32 * j + 32) =~= hdr.subrange(32 * j, 32 * j + 32));
}

/// Two bit streams that agree on their first 128 bits pack the same first
/// four words.
#[verifier::rlimit(100)]
#[verifier::spinoff_prover]
proof fn lemma_header_words_recovered(bits: Seq<bool>, hdr: Seq<bool>)
    requires
        hdr.len() >= 128,
        bits.len() >= 128,
        forall|i: int| 0 <= i < 128 ==> bits[i] == hdr[i],
    ensures
        spec_words_of_bits(bits).len() >= 4,
        forall|j: int| 0 <= j < 4 ==> spec_words_of_bits(bits)[j] == spec_words_of_bits(hdr)[j],
{
    assert(spec_words_of_bits(bits).len() == bits.len() / 32);
    assert(bits.len() / 32 >= 4);
    assert forall|j: int| 0 <= j < 4 implies spec_words_of_bits(bits)[j] == spec_words_of_bits(
        hdr,
    )[j] by {
        lemma_word_window(bits, hdr, j);
    }
}

/// The four essential header words survive the trip through the pixels of a
/// valid instruction frame: at least 128 of its blocks are intact, and each
/// of words 0 to 3 is assembled from bits below that bound.
#[verifier::rlimit(100)]
#[verifier::spinoff_prover]
pub proof fn lemma_instruction_words(img: Seq<u8>, st: Settings, m: OutputMode, units: int)
    requires
        st.valid(),
        1 <= units <= 0x80000000,
        instruction_frame_encodes(img, st, m, units),
    ensures
        ({
            let ws = spec_words_of_bits(frame_bits(img, st.width as int, st.height as int, 5));
            &&& ws.len() >= 4
            &&& ws[0] == mode_marker(m)
            &&& ws[1] == spec_final_frame(units, units_per_frame(st, m)) as u32
            &&& ws[2] == spec_final_count(units, units_per_frame(st, m)) as u32
            &&& ws[3] == st.size as u32
        }),
{
    let w = st.width as int;
    let h = st.height as int;
    let bits = frame_bits(img, w, h, 5);
    let hdr = header_stream(st, m, units);
    let hws = header_words(
        m,
        spec_final_frame(units, units_per_frame(st, m)) as u32,
        spec_final_count(units, units_per_frame(st, m)) as u32,
        st.size as u32,
    );
    assert(hws.len() == 5);
    assert(hdr.len() == 160);
    assert(block_count(w, h, 5) >= 128);
    assert(bits.len() == block_count(w, h, 5));
    assert forall|i: int| 0 <= i < 128 implies bits[i] == hdr[i] by {
        assert(bits[i] == bit_at(hdr, i));
    }
    lemma_header_words_recovered(bits, hdr);
    crate::convert::lemma_words_round_trip(hws);
    assert(spec_words_of_bits(hdr) == hws);
    assert(hws[0] == mode_marker(m));
    assert(hws[1] == spec_final_frame(units, units_per_frame(st, m)) as u32);
    assert(hws[2] == spec_final_count(units, units_per_frame(st, m)) as u32);
    assert(hws[3] == st.size as u32);
}

/// The frame list is exactly what a successful Binary-mode encode of
/// `bytes` under `st` hands out, re-read as raw container frames: one
/// instruction frame carrying the header stream, then one data frame per
/// payload window in payload order, all of the configured dimensions.
pub open spec fn is_etched_binary_video(
    frames: Seq<RawFrame>,
    bytes: Seq<u8>,
    st: Settings,
) -> bool {
    let bits = spec_bits_of_bytes(bytes);
    let cap = block_count(st.width as int, st.height as int, st.size as int);
    &&& frames.len() == 1 + spec_total_frames(bits.len() as int, cap)
    &&& frames[0].width == st.width
    &&& frames[0].height == st.height
    &&& frames[0].image@.len() == 3 * st.width * st.height
    &&& instruction_frame_encodes(frames[0].image@, st, OutputMode::Binary, bits.len() as int)
    &&& forall|t: int|
        1 <= t < frames.len() ==> (#[trigger] frames[t]).width == st.width && frames[t].height
            == st.height && frames[t].image@.len() == 3 * st.width * st.height
    &&& forall|t: int, k: int|
        0 <= t < frames.len() - 1 && 0 <= k < cap ==> #[trigger] frame_bits(
            frames[1 + t].image@,
            st.width as int,
            st.height as int,
            st.size as int,
        )[k] == bit_at(bits, t * cap + k)
}

/// As [`is_etched_binary_video`], for a Color-mode encode: each data frame
/// carries three payload bytes per block.
pub open spec fn is_etched_color_video(frames: Seq<RawFrame>, bytes: Seq<u8>, st: Settings) -> bool {
    let cap = block_count(st.width as int, st.height as int, st.size as int);
    &&& frames.len() == 1 + spec_total_frames(bytes.len() as int, 3 * cap)
    &&& frames[0].width == st.width
    &&& frames[0].height == st.height
    &&& frames[0].image@.len() == 3 * st.width * st.height
    &&& instruction_frame_encodes(frames[0].image@, st, OutputMode::Color, bytes.len() as int)
    &&& forall|t: int|
        1 <= t < frames.len() ==> (#[trigger] frames[t]).width == st.width && frames[t].height
            == st.height && frames[t].image@.len() == 3 * st.width * st.height
    &&& forall|t: int, u: int|
        0 <= t < frames.len() - 1 && 0 <= u < 3 * cap ==> #[trigger] frame_bytes(
            frames[1 + t].image@,
            st.width as int,
            st.height as int,
            st.size as int,
        )[u] == byte_at(bytes, t * (3 * cap) + u)
}

/// Decoding the data frames of a Binary encode from frame `j` on yields the
/// payload's bit stream from position `j * cap` on.
#[verifier::rlimit(100)]
#[verifier::spinoff_prover]
proof fn lemma_read_data_bin_suffix(frames: Seq<RawFrame>, bytes: Seq<u8>, st: Settings, j: int)
    requires
        st.valid(),
        1 <= bytes.len(),
        8 * bytes.len() <= 0x80000000,
        is_etched_binary_video(frames, bytes, st),
        0 <= j <= spec_final_frame(
            8 * bytes.len() as int,
            block_count(st.width as int, st.height as int, st.size as int),
        ),
    ensures
        ({
            let bits = spec_bits_of_bytes(bytes);
            let cap = block_count(st.width as int, st.height as int, st.size as int);
            spec_read_data_bin(
                frames,
                spec_final_frame(bits.len() as int, cap),
                spec_final_count(bits.len() as int, cap),
                st.size as int,
                j,
            ) == Ok::<Seq<bool>, EtchError>(bits.skip(j * cap))
        }),
    decreases spec_final_frame(
        8 * bytes.len() as int,
        block_count(st.width as int, st.height as int, st.size as int),
    ) - j,
{
    let w = st.width as int;
    let h = st.height as int;
    let s = st.size as int;
    let bits = spec_bits_of_bytes(bytes);
    let cap = block_count(w, h, s);
    let units = bits.len() as int;
    assert(cap >= 1 && cap <= 0x10000000) by (nonlinear_arith)
        requires
            1 <= s <= w <= 16384,
            s <= h <= 16384,
            cap == (w / s) * (h / s),
    ;
    lemma_ceil_bounds(units, cap);
    let fi = spec_final_frame(units, cap);
    let fc = spec_final_count(units, cap);
    assert(1 + j < frames.len());
    assert(raw_frame_admissible(frames[1 + j], s, true) || true);
    assert(frames[1 + j].width == st.width);
    assert(raw_frame_admissible(frames[1 + j], s, false));
    let fb = frame_bits(frames[1 + j].image@, w, h, s);
    assert(fb.len() == cap);
    if j == fi {
        assert(fc <= fb.len());
        assert(fb.take(fc) =~= bits.skip(fi * cap)) by {
            assert(bits.skip(fi * cap).len() == fc);
            assert forall|k: int| 0 <= k < fc implies fb.take(fc)[k] == bits.skip(fi * cap)[k] by {
                assert(fb[k] == bit_at(bits, fi * cap + k));
                assert(fi * cap + k < units);
            }
        }
    } else {
        lemma_read_data_bin_suffix(frames, bytes, st, j + 1);
        let rest = bits.skip((j + 1) * cap);
        assert((j + 1) * cap <= fi * cap) by (nonlinear_arith)
            requires
                j + 1 <= fi,
                cap >= 1,
        ;
        assert((j + 1) * cap == j * cap + cap) by (nonlinear_arith);
        assert(fb + rest =~= bits.skip(j * cap)) by {
            assert(fi * cap < units);
            assert forall|i: int| 0 <= i < bits.skip(j * cap).len() implies (fb + rest)[i]
                == bits.skip(j * cap)[i] by {
                if i < cap {
                    assert(fb[i] == bit_at(bits, j * cap + i));
                    assert(j * cap + i < units);
                } else {
                    assert(rest[i - cap] == bits[(j + 1) * cap + i - cap]);
                }
            }
        }
    }
}

/// Decoding the data frames of a Color encode from frame `j` on yields the
/// payload's bytes from position `j * 3 * cap` on.
#[verifier::rlimit(100)]
#[verifier::spinoff_prover]
proof fn lemma_read_data_color_suffix(frames: Seq<RawFrame>, bytes: Seq<u8>, st: Settings, j: int)
    requires
        st.valid(),
        1 <= bytes.len() <= 0x80000000,
        is_etched_color_video(frames, bytes, st),
        0 <= j <= spec_final_frame(
            bytes.len() as int,
            3 * block_count(st.width as int, st.height as int, st.size as int),
        ),
    ensures
        ({
            let cap = block_count(st.width as int, st.height as int, st.size as int);
            spec_read_data_color(
                frames,
                spec_final_frame(bytes.len() as int, 3 * cap),
                spec_final_count(bytes.len() as int, 3 * cap),
                st.size as int,
                j,
            ) == Ok::<Seq<u8>, EtchError>(bytes.skip(j * (3 * cap)))
        }),
    decreases spec_final_frame(
        bytes.len() as int,
        3 * block_count(st.width as int, st.height as int, st.size as int),
    ) - j,
{
    let w = st.width as int;
    let h = st.height as int;
    let s = st.size as int;
    let cap = block_count(w, h, s);
    let capu = 3 * cap;
    let units = bytes.len() as int;
    assert(cap >= 1 && cap <= 0x10000000) by (nonlinear_arith)
        requires
            1 <= s <= w <= 16384,
            s <= h <= 16384,
            cap == (w / s) * (h / s),
    ;
    lemma_ceil_bounds(units, capu);
    let fi = spec_final_frame(units, capu);
    let fc = spec_final_count(units, capu);
    assert(1 + j < frames.len());
    assert(frames[1 + j].width == st.width);
    assert(raw_frame_admissible(frames[1 + j], s, false));
    let fb = frame_bytes(frames[1 + j].image@, w, h, s);
    assert(fb.len() == capu);
    if j == fi {
        assert(fc <= fb.len());
        assert(fb.take(fc) =~= bytes.skip(fi * capu)) by {
            assert(bytes.skip(fi * capu).len() == fc);
            assert forall|k: int| 0 <= k < fc implies fb.take(fc)[k] == bytes.skip(fi * capu)[k] by {
                assert(fb[k] == byte_at(bytes, fi * capu + k));
                assert(fi * capu + k < units);
            }
        }
    } else {
        lemma_read_data_color_suffix(frames, bytes, st, j + 1);
        let rest = bytes.skip((j + 1) * capu);
        assert((j + 1) * capu <= fi * capu) by (nonlinear_arith)
            requires
                j + 1 <= fi,
                capu >= 1,
        ;
        assert((j + 1) * capu == j * capu + capu) by (nonlinear_arith);
        assert(fb + rest =~= bytes.skip(j * capu)) by {
            assert(fi * capu < units);
            assert forall|i: int| 0 <= i < bytes.skip(j * capu).len() implies (fb + rest)[i]
                == bytes.skip(j * capu)[i] by {
                if i < capu {
                    assert(fb[i] == byte_at(bytes, j * capu + i));
                    assert(j * capu + i < units);
                } else {
                    assert(rest[i - capu] == bytes[(j + 1) * capu + i - capu]);
                }
            }
        }
    }
}

/// Round trip, Binary mode: decoding the frame list a successful encode
/// produced recovers the payload byte-for-byte, for every non-empty payload
/// and every valid configuration.
#[verifier::rlimit(100)]
#[verifier::spinoff_prover]
pub proof fn lemma_round_trip_binary(frames: Seq<RawFrame>, bytes: Seq<u8>, st: Settings)
    requires
        st.valid(),
        1 <= bytes.len(),
        8 * bytes.len() <= 0x80000000,
        is_etched_binary_video(frames, bytes, st),
    ensures
        spec_read(frames) == Ok::<Seq<u8>, EtchError>(bytes),
{
    let w = st.width as int;
    let h = st.height as int;
    let s = st.size as int;
    let bits = spec_bits_of_bytes(bytes);
    let units = bits.len() as int;
    let cap = block_count(w, h, s);
    assert(cap >= 1 && cap <= 0x10000000) by (nonlinear_arith)
        requires
            1 <= s <= w <= 16384,
            s <= h <= 16384,
            cap == (w / s) * (h / s),
    ;
    lemma_ceil_bounds(units, cap);
    let fi = spec_final_frame(units, cap);
    let fc = spec_final_count(units, cap);
    assert(frames.len() >= 2);
    assert(raw_frame_admissible(frames[0], 5, true));
    lemma_instruction_words(frames[0].image@, st, OutputMode::Binary, units);
    let ws = spec_words_of_bits(frame_bits(frames[0].image@, frames[0].width as int, frames[0].height as int, 5));
    assert(ws.len() >= 4);
    assert(ws[0] == 0u32);
    assert(ws[1] == fi as u32);
    assert(ws[2] == fc as u32);
    assert(ws[3] == st.size as u32);
    assert(fi <= units - 1);
    assert(ws[1] <= i32::MAX as u32);
    assert(ws[2] <= i32::MAX as u32);
    assert(ws[3] <= i32::MAX as u32);
    assert(ws[1] as int == fi);
    assert(ws[2] as int == fc);
    assert(ws[3] as int == s);
    lemma_read_data_bin_suffix(frames, bytes, st, 0);
    assert(bits.skip(0) =~= bits);
    crate::convert::lemma_bytes_round_trip(bytes);
}

/// Round trip, Color mode: decoding the frame list a successful encode
/// produced recovers the payload byte-for-byte, for every non-empty payload
/// and every valid configuration.
#[verifier::rlimit(100)]
#[verifier::spinoff_prover]
pub proof fn lemma_round_trip_color(frames: Seq<RawFrame>, bytes: Seq<u8>, st: Settings)
    requires
        st.valid(),
        1 <= bytes.len() <= 0x80000000,
        is_etched_color_video(frames, bytes, st),
    ensures
        spec_read(frames) == Ok::<Seq<u8>, EtchError>(bytes),
{
    let w = st.width as int;
    let h = st.height as int;
    let s = st.size as int;
    let units = bytes.len() as int;
    let cap = block_count(w, h, s);
    assert(cap >= 1 && cap <= 0x10000000) by (nonlinear_arith)
        requires
            1 <= s <= w <= 16384,
            s <= h <= 16384,
            cap == (w / s) * (h / s),
    ;
    lemma_ceil_bounds(units, 3 * cap);
    let fi = spec_final_frame(units, 3 * cap);
    let fc = spec_final_count(units, 3 * cap);
    assert(frames.len() >= 2);
    assert(raw_frame_admissible(frames[0], 5, true));
    lemma_instruction_words(frames[0].image@, st, OutputMode::Color, units);
    let ws = spec_words_of_bits(frame_bits(frames[0].image@, frames[0].width as int, frames[0].height as int, 5));
    assert(ws.len() >= 4);
    assert(ws[0] == 0xFFFFFFFFu32);
    assert(ws[1] == fi as u32);
    assert(ws[2] == fc as u32);
    assert(ws[3] == st.size as u32);
    assert(fi <= units - 1);
    assert(ws[1] <= i32::MAX as u32);
    assert(ws[2] <= i32::MAX as u32);
    assert(ws[3] <= i32::MAX as u32);
    assert(ws[1] as int == fi);
    assert(ws[2] as int == fc);
    assert(ws[3] as int == s);
    lemma_read_data_color_suffix(frames, bytes, st, 0);
    assert(bytes.skip(0) =~= bytes);
}

/// Order preservation: two encodes of the same payload whose configurations
/// differ only in the worker count decode to the same bytes — the payload
/// itself. The encoding shape does not mention the worker count at all, so
/// frame content, and with it the recovered payload, is independent of it.
pub proof fn lemma_order_preservation(
    frames1: Seq<RawFrame>,
    frames2: Seq<RawFrame>,
    bytes: Seq<u8>,
    st1: Settings,
    st2: Settings,
    m: OutputMode,
)
    requires
        st1.valid(),
        st2.valid(),
        st2 == (Settings { threads: st2.threads, ..st1 }),
        1 <= bytes.len(),
        8 * bytes.len() <= 0x80000000,
        m == OutputMode::Binary ==> is_etched_binary_video(frames1, bytes, st1)
            && is_etched_binary_video(frames2, bytes, st2),
        m == OutputMode::Color ==> is_etched_color_video(frames1, bytes, st1)
            && is_etched_color_video(frames2, bytes, st2),
    ensures
        spec_read(frames1) == Ok::<Seq<u8>, EtchError>(bytes),
        spec_read(frames2) == Ok::<Seq<u8>, EtchError>(bytes),
        spec_read(frames1) == spec_read(frames2),
{
    match m {
        OutputMode::Binary => {
            lemma_round_trip_binary(frames1, bytes, st1);
            lemma_round_trip_binary(frames2, bytes, st2);
        },
        OutputMode::Color => {
            lemma_round_trip_color(frames1, bytes, st1);
            lemma_round_trip_color(frames2, bytes, st2);
        },
    }
}

/// Carrying a successful Binary-mode encode's frames through the container
/// unchanged — same pixels, same dimensions — yields exactly the raw-frame
/// shape the round-trip law speaks of. Together with [`etch`]'s
/// postcondition and [`lemma_round_trip_binary`], this closes the loop:
/// what `etch` hands out, `read` decodes back to the payload.
#[verifier::rlimit(100)]
#[verifier::spinoff_prover]
pub proof fn lemma_etched_frames_carry_binary(
    frames: Seq<EmbedSource>,
    raws: Seq<RawFrame>,
    bytes: Seq<u8>,
    st: Settings,
)
    requires
        st.valid(),
        1 <= bytes.len(),
        8 * bytes.len() <= 0x80000000,
        frames.len() == 1 + spec_total_frames(
            8 * bytes.len() as int,
            block_count(st.width as int, st.height as int, st.size as int),
        ),
        frames[0].wf(),
        frames[0].frame_size == (Size { width: st.width, height: st.height }),
        instruction_frame_encodes(frames[0].image@, st, OutputMode::Binary, 8 * bytes.len() as int),
        forall|t: int|
            1 <= t < frames.len() ==> (#[trigger] frames[t]).wf() && frames[t].frame_size == (Size {
                width: st.width,
                height: st.height,
            }),
        forall|t: int, k: int|
            0 <= t < frames.len() - 1 && 0 <= k < block_count(
                st.width as int,
                st.height as int,
                st.size as int,
            ) ==> #[trigger] frame_bits(
                frames[1 + t].image@,
                st.width as int,
                st.height as int,
                st.size as int,
            )[k] == bit_at(spec_bits_of_bytes(bytes), t * block_count(
                st.width as int,
                st.height as int,
                st.size as int,
            ) + k),
        raws.len() == frames.len(),
        forall|t: int|
            0 <= t < raws.len() ==> (#[trigger] raws[t]).image@ == frames[t].image@ && raws[t].width
                == frames[t].frame_size.width && raws[t].height == frames[t].frame_size.height,
    ensures
        is_etched_binary_video(raws, bytes, st),
        spec_read(raws) == Ok::<Seq<u8>, EtchError>(bytes),
{
    let w = st.width as int;
    let h = st.height as int;
    let s = st.size as int;
    let cap = block_count(w, h, s);
    let bits = spec_bits_of_bytes(bytes);
    assert(cap >= 1) by (nonlinear_arith)
        requires
            1 <= s <= w,
            s <= h,
            cap == (w / s) * (h / s),
    ;
    lemma_ceil_bounds(bits.len() as int, cap);
    assert(frames.len() >= 2);
    assert forall|t: int, k: int|
        0 <= t < raws.len() - 1 && 0 <= k < cap implies #[trigger] frame_bits(
        raws[1 + t].image@,
        w,
        h,
        s,
    )[k] == bit_at(bits, t * cap + k) by {
        assert(raws[1 + t].image@ == frames[1 + t].image@);
        assert(frame_bits(frames[1 + t].image@, w, h, s)[k] == bit_at(bits, t * cap + k));
    }
    assert(raws[0].image@ == frames[0].image@);
    assert(raws[0].width == st.width && raws[0].height == st.height);
    assert(raws[0].image@.len() == 3 * st.width * st.height);
    assert(instruction_frame_encodes(raws[0].image@, st, OutputMode::Binary, 8 * bytes.len() as int));
    assert forall|t: int|
        1 <= t < raws.len() implies (#[trigger] raws[t]).width == st.width && raws[t].height
        == st.height && raws[t].image@.len() == 3 * st.width * st.height by {
        assert(frames[t].wf());
        assert(raws[t].image@ == frames[t].image@);
    }
    assert(is_etched_binary_video(raws, bytes, st));
    lemma_round_trip_binary(raws, bytes, st);
}

/// As [`lemma_etched_frames_carry_binary`], for a Color-mode encode.
#[verifier::rlimit(100)]
#[verifier::spinoff_prover]
pub proof fn lemma_etched_frames_carry_color(
    frames: Seq<EmbedSource>,
    raws: Seq<RawFrame>,
    bytes: Seq<u8>,
    st: Settings,
)
    requires
        st.valid(),
        1 <= bytes.len() <= 0x80000000,
        frames.len() == 1 + spec_total_frames(
            bytes.len() as int,
            3 * block_count(st.width as int, st.height as int, st.size as int),
        ),
        frames[0].wf(),
        frames[0].frame_size == (Size { width: st.width, height: st.height }),
        instruction_frame_encodes(frames[0].image@, st, OutputMode::Color, bytes.len() as int),
        forall|t: int|
            1 <= t < frames.len() ==> (#[trigger] frames[t]).wf() && frames[t].frame_size == (Size {
                width: st.width,
                height: st.height,
            }),
        forall|t: int, u: int|
            0 <= t < frames.len() - 1 && 0 <= u < 3 * block_count(
                st.width as int,
                st.height as int,
                st.size as int,
            ) ==> #[trigger] frame_bytes(
                frames[1 + t].image@,
                st.width as int,
                st.height as int,
                st.size as int,
            )[u] == byte_at(bytes, t * (3 * block_count(
                st.width as int,
                st.height as int,
                st.size as int,
            )) + u),
        raws.len() == frames.len(),
        forall|t: int|
            0 <= t < raws.len() ==> (#[trigger] raws[t]).image@ == frames[t].image@ && raws[t].width
                == frames[t].frame_size.width && raws[t].height == frames[t].frame_size.height,
    ensures
        is_etched_color_video(raws, bytes, st),
        spec_read(raws) == Ok::<Seq<u8>, EtchError>(bytes),
{
    let w = st.width as int;
    let h = st.height as int;
    let s = st.size as int;
    let cap = block_count(w, h, s);
    assert(cap >= 1) by (nonlinear_arith)
        requires
            1 <= s <= w,
            s <= h,
            cap == (w / s) * (h / s),
    ;
    lemma_ceil_bounds(bytes.len() as int, 3 * cap);
    assert(frames.len() >= 2);
    assert forall|t: int, u: int|
        0 <= t < raws.len() - 1 && 0 <= u < 3 * cap implies #[trigger] frame_bytes(
        raws[1 + t].image@,
        w,
        h,
        s,
    )[u] == byte_at(bytes, t * (3 * cap) + u) by {
        assert(raws[1 + t].image@ == frames[1 + t].image@);
        assert(frame_bytes(frames[1 + t].image@, w, h, s)[u] == byte_at(bytes, t * (3 * cap) + u));
    }
    assert(raws[0].image@ == frames[0].image@);
    assert(raws[0].width == st.width && raws[0].height == st.height);
    assert(raws[0].image@.len() == 3 * st.width * st.height);
    assert(instruction_frame_encodes(raws[0].image@, st, OutputMode::Color, bytes.len() as int));
    assert forall|t: int|
        1 <= t < raws.len() implies (#[trigger] raws[t]).width == st.width && raws[t].height
        == st.height && raws[t].image@.len() == 3 * st.width * st.height by {
        assert(frames[t].wf());
        assert(raws[t].image@ == frames[t].image@);
    }
    assert(is_etched_color_video(raws, bytes, st));
    lemma_round_trip_color(raws, bytes, st);
}
} // verus!
