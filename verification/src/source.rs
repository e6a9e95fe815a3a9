//! The raster surface one frame is etched into and read from: a rectangular
//! grid of 3-channel 8-bit pixels, its configured block size, and the
//! block-aligned usable sub-rectangle.
//!
//! A block is a `size x size` square of pixels carrying one payload unit.
//! Writing fills the block with a uniform colour; reading takes the unweighted
//! mean of each channel over the block.

use vstd::arithmetic::div_mod::lemma_div_multiples_vanish;
use vstd::prelude::*;

verus! {

/// A pair of frame dimensions in pixels.
#[derive(Clone, Copy, PartialEq, Eq, Structural, Debug)]
pub struct Size {
    pub width: i32,
    pub height: i32,
}

impl Size {
    pub fn new(width: i32, height: i32) -> (r: Size)
        ensures
            r == (Size { width, height }),
    {
        Size { width, height }
    }
}

/// Largest frame dimension the library accepts; keeps every pixel index and
/// every block sum comfortably within machine integer ranges.
pub const MAX_DIMENSION: i32 = 16384;

/// Channel `c` (0 red, 1 green, 2 blue) of the pixel at `(x, y)` in a
/// row-major image of width `w`, three bytes per pixel.
pub open spec fn px(img: Seq<u8>, w: int, x: int, y: int, c: int) -> u8 {
    img[3 * (y * w + x) + c]
}

/// Sum of channel `c` over the `n` pixels `(x0, y) .. (x0 + n - 1, y)`.
pub open spec fn row_sum(img: Seq<u8>, w: int, x0: int, y: int, c: int, n: nat) -> int
    decreases n,
{
    if n == 0 {
        0
    } else {
        row_sum(img, w, x0, y, c, (n - 1) as nat) + px(img, w, x0 + n - 1, y, c)
    }
}

/// Sum of channel `c` over the `n`-wide, `rows`-tall rectangle anchored at
/// `(x0, y0)`.
pub open spec fn rect_sum(img: Seq<u8>, w: int, x0: int, y0: int, c: int, n: nat, rows: nat) -> int
    decreases rows,
{
    if rows == 0 {
        0
    } else {
        rect_sum(img, w, x0, y0, c, n, (rows - 1) as nat) + row_sum(
            img,
            w,
            x0,
            y0 + rows - 1,
            c,
            n,
        )
    }
}

/// The unweighted mean of channel `c` over the `s x s` block anchored at
/// `(x0, y0)`, rounded down.
pub open spec fn block_mean(img: Seq<u8>, w: int, x0: int, y0: int, c: int, s: int) -> int {
    rect_sum(img, w, x0, y0, c, s as nat, s as nat) / (s * s)
}

/// Every pixel of the `s x s` block anchored at `(x0, y0)` has value `v` in
/// channel `c`.
pub open spec fn block_uniform(
    img: Seq<u8>,
    w: int,
    x0: int,
    y0: int,
    c: int,
    s: int,
    v: u8,
) -> bool {
    forall|i: int, j: int|
        0 <= i < s && 0 <= j < s ==> #[trigger] px(img, w, x0 + j, y0 + i, c) == v
}

pub proof fn lemma_row_sum_bounds(img: Seq<u8>, w: int, x0: int, y: int, c: int, n: nat)
    ensures
        0 <= row_sum(img, w, x0, y, c, n) <= 255 * n,
    decreases n,
{
    if n > 0 {
        lemma_row_sum_bounds(img, w, x0, y, c, (n - 1) as nat);
    }
}

pub proof fn lemma_rect_sum_bounds(img: Seq<u8>, w: int, x0: int, y0: int, c: int, n: nat, rows: nat)
    ensures
        0 <= rect_sum(img, w, x0, y0, c, n, rows) <= 255 * n * rows,
    decreases rows,
{
    if rows > 0 {
        lemma_rect_sum_bounds(img, w, x0, y0, c, n, (rows - 1) as nat);
        lemma_row_sum_bounds(img, w, x0, y0 + rows - 1, c, n);
        assert(255 * n * ((rows - 1) as nat) + 255 * n == 255 * n * rows) by (nonlinear_arith)
            requires
                rows >= 1,
        ;
    } else {
        assert(255 * n * 0 == 0) by (nonlinear_arith);
    }
}

/// A row of a uniform region sums to `v` times its length.
pub proof fn lemma_uniform_row_sum(
    img: Seq<u8>,
    w: int,
    x0: int,
    y: int,
    c: int,
    n: nat,
    s: int,
    v: u8,
)
    requires
        n <= s,
        forall|j: int| 0 <= j < s ==> #[trigger] px(img, w, x0 + j, y, c) == v,
    ensures
        row_sum(img, w, x0, y, c, n) == v * n,
    decreases n,
{
    if n > 0 {
        lemma_uniform_row_sum(img, w, x0, y, c, (n - 1) as nat, s, v);
        assert(px(img, w, x0 + n - 1, y, c) == v);
        assert(v * ((n - 1) as nat) + v == v * n) by (nonlinear_arith)
            requires
                n >= 1,
        ;
    } else {
        assert(v * 0 == 0) by (nonlinear_arith);
    }
}

/// A uniform block of side `s` sums to `v * s * s`, so its mean is exactly `v`.
pub proof fn lemma_uniform_block_mean(
    img: Seq<u8>,
    w: int,
    x0: int,
    y0: int,
    c: int,
    s: int,
    v: u8,
)
    requires
        1 <= s,
        block_uniform(img, w, x0, y0, c, s, v),
    ensures
        block_mean(img, w, x0, y0, c, s) == v,
{
    lemma_uniform_rect_sum(img, w, x0, y0, c, s as nat, s, v);
    assert(rect_sum(img, w, x0, y0, c, s as nat, s as nat) == v * s * s);
    assert(v * s * s == (v as int) * (s * s)) by (nonlinear_arith);
    assert(s * s >= 1) by (nonlinear_arith)
        requires
            s >= 1,
    ;
    lemma_div_multiples_vanish(v as int, s * s);
}

proof fn lemma_uniform_rect_sum(
    img: Seq<u8>,
    w: int,
    x0: int,
    y0: int,
    c: int,
    rows: nat,
    s: int,
    v: u8,
)
    requires
        1 <= s,
        rows <= s,
        block_uniform(img, w, x0, y0, c, s, v),
    ensures
        rect_sum(img, w, x0, y0, c, s as nat, rows) == v * s * rows,
    decreases rows,
{
    if rows > 0 {
        lemma_uniform_rect_sum(img, w, x0, y0, c, (rows - 1) as nat, s, v);
        assert(forall|j: int| 0 <= j < s ==> #[trigger] px(img, w, x0 + j, y0 + rows - 1, c) == v);
        lemma_uniform_row_sum(img, w, x0, y0 + rows - 1, c, s as nat, s, v);
        assert(v * s * ((rows - 1) as nat) + v * s == v * s * rows) by (nonlinear_arith)
            requires
                rows >= 1,
        ;
    } else {
        assert(v * s * 0 == 0) by (nonlinear_arith);
    }
}

/// Distinct pixel coordinates occupy distinct flat positions.
pub proof fn lemma_px_index_injective(w: int, x1: int, y1: int, x2: int, y2: int)
    by (nonlinear_arith)
    requires
        0 <= x1 < w,
        0 <= x2 < w,
        0 <= y1,
        0 <= y2,
        y1 * w + x1 == y2 * w + x2,
    ensures
        x1 == x2,
        y1 == y2,
{
}

/// A raster frame exactly as it comes back from the video container: a
/// row-major pixel grid of three bytes per pixel, not yet tied to any block
/// size. Decoding wraps each one into an [`EmbedSource`] once the block size
/// is known.
pub struct RawFrame {
    pub image: Vec<u8>,
    pub width: i32,
    pub height: i32,
}

impl RawFrame {
    pub fn new(image: Vec<u8>, width: i32, height: i32) -> (r: RawFrame)
        ensures
            r.image@ == image@,
            r.width == width,
            r.height == height,
    {
        RawFrame { image, width, height }
    }
}

/// A raw frame can be wrapped at this block size: sane bounded dimensions, a
/// pixel buffer of the right length, and — for data frames only — dimensions
/// divisible by the block size.
pub open spec fn raw_frame_admissible(f: RawFrame, size: int, instruction: bool) -> bool {
    &&& 1 <= size <= MAX_DIMENSION
    &&& 1 <= f.width <= MAX_DIMENSION
    &&& 1 <= f.height <= MAX_DIMENSION
    &&& f.image@.len() == 3 * f.width * f.height
    &&& (!instruction ==> f.width as int % size == 0 && f.height as int % size == 0)
}

/// One frame of the video: a pixel grid plus the block size it is quantized
/// by. `frame_size` is the full grid; `actual_size` is the grid trimmed down
/// to whole blocks, the only region block writes and reads touch.
pub struct EmbedSource {
    pub image: Vec<u8>,
    pub size: i32,
    pub frame_size: Size,
    pub actual_size: Size,
}

impl EmbedSource {
    /// Well-formedness: positive bounded dimensions, the trimmed usable
    /// rectangle derived from the block size, and a pixel buffer of exactly
    /// three bytes per pixel.
    pub open spec fn wf(self) -> bool {
        &&& 1 <= self.size <= MAX_DIMENSION
        &&& 1 <= self.frame_size.width <= MAX_DIMENSION
        &&& 1 <= self.frame_size.height <= MAX_DIMENSION
        &&& self.actual_size.width == self.frame_size.width - self.frame_size.width % self.size
        &&& self.actual_size.height == self.frame_size.height - self.frame_size.height % self.size
        &&& self.image@.len() == 3 * self.frame_size.width * self.frame_size.height
    }

    /// A fresh all-black frame of the given block size and dimensions.
    pub fn new(size: i32, width: i32, height: i32) -> (r: EmbedSource)
        requires
            1 <= size <= MAX_DIMENSION,
            1 <= width <= MAX_DIMENSION,
            1 <= height <= MAX_DIMENSION,
        ensures
            r.wf(),
            r.size == size,
            r.frame_size == (Size { width, height }),
            r.image@ == Seq::new((3 * width * height) as nat, |i: int| 0u8),
    {
        let frame_size = Size::new(width, height);
        let actual_width: i32 = width - (width % size);
        let actual_height: i32 = height - (height % size);
        let actual_size = Size::new(actual_width, actual_height);
        proof {
            assert(3 * (width as int) * (height as int) <= 3 * MAX_DIMENSION * MAX_DIMENSION)
                by (nonlinear_arith)
                requires
                    1 <= width <= MAX_DIMENSION,
                    1 <= height <= MAX_DIMENSION,
            ;
            assert(3 * (width as int) * (height as int) >= 0) by (nonlinear_arith)
                requires
                    1 <= width,
                    1 <= height,
            ;
        }
        let pixel_bytes: usize = 3 * (width as usize) * (height as usize);
        let mut image: Vec<u8> = Vec::new();
        let mut i: usize = 0;
        while i < pixel_bytes
            invariant
                i <= pixel_bytes,
                image@ == Seq::new(i as nat, |t: int| 0u8),
            decreases pixel_bytes - i,
        {
            image.push(0u8);
            proof {
                assert(image@ =~= Seq::new(i as nat + 1, |t: int| 0u8));
            }
            i = i + 1;
        }
        proof {
            assert(pixel_bytes == 3 * (width as int) * (height as int));
        }
        EmbedSource { image, size, frame_size, actual_size }
    }

    /// Wraps a raw pixel grid read back from the container. Data frames must
    /// have dimensions divisible by the block size; the instruction frame is
    /// exempt, its usable rectangle being trimmed instead.
    pub fn from(frame: RawFrame, size: i32, instruction: bool) -> (r: Result<
        EmbedSource,
        crate::EtchError,
    >)
        ensures
            match r {
                Ok(f) => {
                    &&& raw_frame_admissible(frame, size as int, instruction)
                    &&& f.wf()
                    &&& f.image@ == frame.image@
                    &&& f.size == size
                    &&& f.frame_size == (Size { width: frame.width, height: frame.height })
                },
                Err(e) => {
                    &&& e == crate::EtchError::DimensionMismatch
                    &&& !raw_frame_admissible(frame, size as int, instruction)
                },
            },
    {
        let width: i32 = frame.width;
        let height: i32 = frame.height;
        if size < 1 || size > MAX_DIMENSION || width < 1 || width > MAX_DIMENSION || height < 1
            || height > MAX_DIMENSION {
            return Err(crate::EtchError::DimensionMismatch);
        }
        if !instruction && (width % size != 0 || height % size != 0) {
            return Err(crate::EtchError::DimensionMismatch);
        }
        proof {
            assert(3 * (width as int) * (height as int) <= 3 * MAX_DIMENSION * MAX_DIMENSION
                && 3 * (width as int) * (height as int) >= 3) by (nonlinear_arith)
                requires
                    1 <= width <= MAX_DIMENSION,
                    1 <= height <= MAX_DIMENSION,
            ;
        }
        let expected: usize = 3 * (width as usize) * (height as usize);
        if frame.image.len() != expected {
            return Err(crate::EtchError::DimensionMismatch);
        }
        let frame_size = Size::new(width, height);
        let actual_size = Size::new(width - (width % size), height - (height % size));
        Ok(EmbedSource { image: frame.image, size, frame_size, actual_size })
    }
}

} // verus!
