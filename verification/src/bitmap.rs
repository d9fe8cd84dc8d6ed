use vstd::prelude::*;

verus! {

/// A decoded, row-major RGBA bitmap: four bytes per pixel, rows laid out
/// top to bottom, pixels within a row left to right.
pub struct Bitmap {
    pub width: usize,
    pub height: usize,
    pub pixels: Vec<u8>,
}

/// First byte of the pixel at column `x`, row `y` in a row-major RGBA
/// buffer of the given width.
pub open spec fn pidx(x: int, y: int, w: int) -> int {
    (y * w + x) * 4
}

/// Channel `c` of the pixel at column `x`, row `y` in a raw row-major
/// RGBA byte sequence of the given width.
pub open spec fn seq_byte(s: Seq<u8>, x: int, y: int, w: int, c: int) -> u8 {
    s[pidx(x, y, w) + c]
}

/// The pixel index of an in-bounds pixel stays inside the buffer.
pub proof fn lemma_pidx_bound(x: int, y: int, w: int, h: int)
    requires
        0 <= x < w,
        0 <= y < h,
    ensures
        0 <= pidx(x, y, w),
        pidx(x, y, w) + 4 <= w * h * 4,
{
    assert(0 <= y * w + x && (y * w + x) + 1 <= w * h) by (nonlinear_arith)
        requires 0 <= x < w, 0 <= y < h;
    assert((y * w + x) * 4 + 4 <= w * h * 4) by (nonlinear_arith)
        requires (y * w + x) + 1 <= w * h, 0 <= y * w + x;
}

/// Distinct in-bounds pixel coordinates give distinct pixel indices.
pub proof fn lemma_pidx_injective(x1: int, y1: int, x2: int, y2: int, w: int)
    requires
        0 <= x1 < w,
        0 <= x2 < w,
        0 <= y1,
        0 <= y2,
        pidx(x1, y1, w) == pidx(x2, y2, w),
    ensures
        x1 == x2 && y1 == y2,
{
    assert(y1 * w + x1 == y2 * w + x2);
    assert(y1 == y2 && x1 == x2) by (nonlinear_arith)
        requires 0 <= x1 < w, 0 <= x2 < w, 0 <= y1, 0 <= y2, y1 * w + x1 == y2 * w + x2;
}

/// Any byte index of the buffer splits into the coordinates and channel
/// of exactly one in-bounds pixel.
pub proof fn lemma_byte_index_split(i: int, w: int, h: int)
    requires
        0 <= i < w * h * 4,
        0 < w,
    ensures
        0 <= (i / 4) % w < w,
        0 <= (i / 4) / w < h,
        0 <= i % 4 < 4,
        pidx((i / 4) % w, (i / 4) / w, w) + i % 4 == i,
{
    assert(0 <= (i / 4) % w < w && 0 <= (i / 4) / w < h && 0 <= i % 4 < 4
        && (((i / 4) / w) * w + (i / 4) % w) * 4 + i % 4 == i) by (nonlinear_arith)
        requires 0 <= i < w * h * 4, 0 < w;
}

/// Raster (row-major) order of pixels agrees with lexicographic order on
/// (row, column) for in-bounds columns.
pub proof fn lemma_raster_order(x1: int, y1: int, x2: int, y2: int, w: int)
    requires
        0 <= x1 < w,
        0 <= x2 < w,
        0 <= y1,
        0 <= y2,
    ensures
        (y1 * w + x1 < y2 * w + x2) <==> (y1 < y2 || (y1 == y2 && x1 < x2)),
{
    assert((y1 * w + x1 < y2 * w + x2) <==> (y1 < y2 || (y1 == y2 && x1 < x2)))
        by (nonlinear_arith)
        requires 0 <= x1 < w, 0 <= x2 < w, 0 <= y1, 0 <= y2;
}

impl Bitmap {
    /// The buffer holds exactly four bytes for every pixel of the
    /// `width` x `height` grid.
    pub open spec fn wf(self) -> bool {
        self.pixels@.len() == self.width * self.height * 4
    }

    /// Channel `c` (0 = red, 1 = green, 2 = blue, 3 = alpha) of the pixel
    /// at column `x`, row `y`.
    pub open spec fn byte_at(self, x: int, y: int, c: int) -> u8 {
        seq_byte(self.pixels@, x, y, self.width as int, c)
    }

    /// The whole RGBA quadruple of the pixel at column `x`, row `y`.
    pub open spec fn pixel_at(self, x: int, y: int) -> [u8; 4] {
        [
            self.byte_at(x, y, 0),
            self.byte_at(x, y, 1),
            self.byte_at(x, y, 2),
            self.byte_at(x, y, 3),
        ]
    }

    /// A fully transparent (all-zero) bitmap of the given dimensions.
    pub fn new(width: usize, height: usize) -> (r: Bitmap)
        requires
            width * height * 4 <= usize::MAX,
        ensures
            r.wf(),
            r.width == width,
            r.height == height,
            forall|i: int| 0 <= i < r.pixels@.len() ==> r.pixels@[i] == 0u8,
    {
        proof {
            assert(width * height * 4 >= 0) by (nonlinear_arith);
        }
        let total: usize = (width * height) * 4;
        let mut pixels: Vec<u8> = Vec::new();
        let mut i: usize = 0;
        while i < total
            invariant
                i <= total,
                pixels@.len() == i,
                forall|j: int| 0 <= j < i ==> pixels@[j] == 0u8,
            decreases total - i,
        {
            pixels.push(0u8);
            i = i + 1;
        }
        Bitmap { width, height, pixels }
    }

    /// Wraps an already decoded RGBA byte buffer, checking that its length
    /// matches the claimed dimensions; rejects a mismatched buffer.
    pub fn from_pixels(width: usize, height: usize, pixels: Vec<u8>) -> (r: Option<Bitmap>)
        ensures
            match r {
                Some(b) => {
                    &&& b.wf()
                    &&& b.width == width
                    &&& b.height == height
                    &&& b.pixels@ == pixels@
                    &&& pixels@.len() == width * height * 4
                },
                None => pixels@.len() != width * height * 4,
            },
    {
        let len = pixels.len();
        if len % 4 != 0 {
            proof {
                assert(width * height * 4 % 4 == 0) by (nonlinear_arith);
            }
            return None;
        }
        let quarter: usize = len / 4;
        proof {
            assert((width as u128) * (height as u128) <= u128::MAX) by (nonlinear_arith)
                requires width <= u64::MAX, height <= u64::MAX;
            assert(len % 4 == 0 ==> (
                (quarter == width * height) <==> (len == width * height * 4)
            )) by (nonlinear_arith)
                requires quarter == len / 4;
        }
        let ok = (quarter as u128) == (width as u128) * (height as u128);
        if ok {
            Some(Bitmap { width, height, pixels })
        } else {
            None
        }
    }

    /// Reads the RGBA quadruple of one pixel.
    pub fn get_pixel(&self, x: usize, y: usize) -> (r: [u8; 4])
        requires
            self.wf(),
            x < self.width,
            y < self.height,
        ensures
            r == self.pixel_at(x as int, y as int),
    {
        let _n = self.pixels.len();
        proof {
            lemma_pidx_bound(x as int, y as int, self.width as int, self.height as int);
        }
        let base: usize = (y * self.width + x) * 4;
        let r = [
            self.pixels[base],
            self.pixels[base + 1],
            self.pixels[base + 2],
            self.pixels[base + 3],
        ];
        proof {
            assert(r =~= self.pixel_at(x as int, y as int));
        }
        r
    }

    /// Overwrites the RGBA quadruple of one pixel, leaving every other
    /// byte of the buffer unchanged.
    pub fn put_pixel(&mut self, x: usize, y: usize, color: [u8; 4])
        requires
            old(self).wf(),
            x < old(self).width,
            y < old(self).height,
        ensures
            final(self).wf(),
            final(self).width == old(self).width,
            final(self).height == old(self).height,
            final(self).pixel_at(x as int, y as int) == color,
            forall|xi: int, yi: int, c: int|
                0 <= xi < old(self).width && 0 <= yi < old(self).height && 0 <= c < 4
                    && !(xi == x && yi == y)
                    ==> final(self).byte_at(xi, yi, c) == old(self).byte_at(xi, yi, c),
    {
        let _n = self.pixels.len();
        proof {
            lemma_pidx_bound(x as int, y as int, self.width as int, self.height as int);
        }
        let base: usize = (y * self.width + x) * 4;
        self.pixels.set(base, color[0]);
        self.pixels.set(base + 1, color[1]);
        self.pixels.set(base + 2, color[2]);
        self.pixels.set(base + 3, color[3]);
        proof {
            assert(final(self).pixel_at(x as int, y as int) =~= color);
            assert forall|xi: int, yi: int, c: int|
                0 <= xi < self.width && 0 <= yi < self.height && 0 <= c < 4
                    && !(xi == x && yi == y)
                    implies self.byte_at(xi, yi, c) == old(self).byte_at(xi, yi, c) by {
                lemma_pidx_bound(xi, yi, self.width as int, self.height as int);
                if pidx(xi, yi, self.width as int) == pidx(x as int, y as int, self.width as int) {
                    lemma_pidx_injective(xi, yi, x as int, y as int, self.width as int);
                } else {
                    lemma_raster_order(xi, yi, x as int, y as int, self.width as int);
                }
            }
        }
    }
    /// Copies out the `w` x `h` sub-rectangle whose top-left corner sits at
    /// `(x0, y0)`; pixel `(x, y)` of the result is pixel `(x0+x, y0+y)` of
    /// the source.
    pub fn crop(&self, x0: usize, y0: usize, w: usize, h: usize) -> (r: Bitmap)
        requires
            self.wf(),
            x0 + w <= self.width,
            y0 + h <= self.height,
        ensures
            r.wf(),
            r.width == w,
            r.height == h,
            forall|x: int, y: int, c: int|
                0 <= x < w && 0 <= y < h && 0 <= c < 4
                    ==> r.byte_at(x, y, c) == self.byte_at(x0 + x, y0 + y, c),
    {
        let mut pixels: Vec<u8> = Vec::new();
        let mut y: usize = 0;
        while y < h
            invariant
                self.wf(),
                x0 + w <= self.width,
                y0 + h <= self.height,
                y <= h,
                pixels@.len() == y * w * 4,
                forall|xi: int, yi: int, c: int|
                    0 <= xi < w && 0 <= yi < y && 0 <= c < 4
                        ==> #[trigger] seq_byte(pixels@, xi, yi, w as int, c)
                            == self.byte_at(x0 + xi, y0 + yi, c),
            decreases h - y,
        {
            let mut x: usize = 0;
            while x < w
                invariant
                    self.wf(),
                    x0 + w <= self.width,
                    y0 + h <= self.height,
                    y < h,
                    x <= w,
                    pixels@.len() == (y * w + x) * 4,
                    forall|xi: int, yi: int, c: int|
                        0 <= xi < w && 0 <= yi < h && 0 <= c < 4
                            && (yi < y || (yi == y && xi < x))
                            ==> #[trigger] seq_byte(pixels@, xi, yi, w as int, c)
                                == self.byte_at(x0 + xi, y0 + yi, c),
                decreases w - x,
            {
                let p = self.get_pixel(x0 + x, y0 + y);
                let ghost snap = pixels@;
                let ghost len0 = pixels@.len() as int;
                pixels.push(p[0]);
                pixels.push(p[1]);
                pixels.push(p[2]);
                pixels.push(p[3]);
                proof {
                    assert forall|xi: int, yi: int, c: int|
                        0 <= xi < w && 0 <= yi < h && 0 <= c < 4
                            && (yi < y || (yi == y && xi < x + 1))
                            implies #[trigger] seq_byte(pixels@, xi, yi, w as int, c)
                                == self.byte_at(x0 + xi, y0 + yi, c) by {
                        if xi == x && yi == y {
                            assert(pidx(xi, yi, w as int) == len0);
                            assert(pixels@[len0 + 0] == p[0]);
                            assert(pixels@[len0 + 1] == p[1]);
                            assert(pixels@[len0 + 2] == p[2]);
                            assert(pixels@[len0 + 3] == p[3]);
                            assert(p == self.pixel_at(x0 + xi, y0 + yi));
                        } else {
                            lemma_raster_order(xi, yi, x as int, y as int, w as int);
                            assert(0 <= yi * w + xi) by (nonlinear_arith)
                                requires 0 <= xi, 0 <= yi, 0 <= w;
                            assert((yi * w + xi) * 4 + c < len0) by (nonlinear_arith)
                                requires
                                    yi * w + xi < y * w + x,
                                    len0 == (y * w + x) * 4,
                                    0 <= c < 4,
                                    0 <= yi * w + xi;
                            assert(seq_byte(snap, xi, yi, w as int, c)
                                == self.byte_at(x0 + xi, y0 + yi, c));
                            assert(pixels@[pidx(xi, yi, w as int) + c]
                                == snap[pidx(xi, yi, w as int) + c]);
                        }
                    }
                }
                x = x + 1;
            }
            proof {
                assert((y + 1) * w * 4 == (y * w + w) * 4) by (nonlinear_arith);
            }
            y = y + 1;
        }
        let r = Bitmap { width: w, height: h, pixels };
        proof {
            assert(h * w * 4 == w * h * 4) by (nonlinear_arith);
        }
        r
    }
}

/// A geometric transform that the sprite loader applies once at
/// construction time.
#[derive(Clone, Copy, PartialEq, Eq, Structural)]
pub enum Transform {
    FlipHorizontal,
    FlipVertical,
    RotateQuarter,
    RotateHalf,
}

/// Width of the image that `transformed` produces from a source of the
/// given dimensions.
pub open spec fn transformed_width(t: Transform, sw: int, sh: int) -> int {
    if t is RotateQuarter { sh } else { sw }
}

/// Height of the image that `transformed` produces from a source of the
/// given dimensions.
pub open spec fn transformed_height(t: Transform, sw: int, sh: int) -> int {
    if t is RotateQuarter { sw } else { sh }
}

/// Source column sampled for destination pixel `(x, y)` under transform
/// `t`; the quarter rotation is clockwise.
pub open spec fn transformed_src_x(t: Transform, x: int, y: int, sw: int, sh: int) -> int {
    match t {
        Transform::FlipHorizontal => sw - 1 - x,
        Transform::FlipVertical => x,
        Transform::RotateQuarter => y,
        Transform::RotateHalf => sw - 1 - x,
    }
}

/// Source row sampled for destination pixel `(x, y)` under transform `t`.
pub open spec fn transformed_src_y(t: Transform, x: int, y: int, sw: int, sh: int) -> int {
    match t {
        Transform::FlipHorizontal => y,
        Transform::FlipVertical => sh - 1 - y,
        Transform::RotateQuarter => sh - 1 - x,
        Transform::RotateHalf => sh - 1 - y,
    }
}

impl Bitmap {
    /// Returns the image flipped about an axis or rotated by a quarter or
    /// half turn; the quarter rotation is clockwise and swaps the
    /// dimensions.
    pub fn transformed(&self, t: Transform) -> (r: Bitmap)
        requires
            self.wf(),
        ensures
            r.wf(),
            r.width == transformed_width(t, self.width as int, self.height as int),
            r.height == transformed_height(t, self.width as int, self.height as int),
            forall|x: int, y: int, c: int|
                0 <= x < r.width && 0 <= y < r.height && 0 <= c < 4
                    ==> r.byte_at(x, y, c) == self.byte_at(
                        transformed_src_x(t, x, y, self.width as int, self.height as int),
                        transformed_src_y(t, x, y, self.width as int, self.height as int),
                        c,
                    ),
    {
        let sw = self.width;
        let sh = self.height;
        let (dw, dh): (usize, usize) = match t {
            Transform::RotateQuarter => (sh, sw),
            _ => (sw, sh),
        };
        let mut pixels: Vec<u8> = Vec::new();
        let mut y: usize = 0;
        while y < dh
            invariant
                self.wf(),
                sw == self.width,
                sh == self.height,
                dw == transformed_width(t, sw as int, sh as int),
                dh == transformed_height(t, sw as int, sh as int),
                y <= dh,
                pixels@.len() == y * dw * 4,
                forall|xi: int, yi: int, c: int|
                    0 <= xi < dw && 0 <= yi < y && 0 <= c < 4
                        ==> #[trigger] seq_byte(pixels@, xi, yi, dw as int, c) == self.byte_at(
                            transformed_src_x(t, xi, yi, sw as int, sh as int),
                            transformed_src_y(t, xi, yi, sw as int, sh as int),
                            c,
                        ),
            decreases dh - y,
        {
            let mut x: usize = 0;
            while x < dw
                invariant
                    self.wf(),
                    sw == self.width,
                    sh == self.height,
                    dw == transformed_width(t, sw as int, sh as int),
                    dh == transformed_height(t, sw as int, sh as int),
                    y < dh,
                    x <= dw,
                    pixels@.len() == (y * dw + x) * 4,
                    forall|xi: int, yi: int, c: int|
                        0 <= xi < dw && 0 <= yi < dh && 0 <= c < 4
                            && (yi < y || (yi == y && xi < x))
                            ==> #[trigger] seq_byte(pixels@, xi, yi, dw as int, c) == self.byte_at(
                                transformed_src_x(t, xi, yi, sw as int, sh as int),
                                transformed_src_y(t, xi, yi, sw as int, sh as int),
                                c,
                            ),
                decreases dw - x,
            {
                let (sx, sy): (usize, usize) = match t {
                    Transform::FlipHorizontal => (sw - 1 - x, y),
                    Transform::FlipVertical => (x, sh - 1 - y),
                    Transform::RotateQuarter => (y, sh - 1 - x),
                    Transform::RotateHalf => (sw - 1 - x, sh - 1 - y),
                };
                let p = self.get_pixel(sx, sy);
                let ghost snap = pixels@;
                let ghost len0 = pixels@.len() as int;
                pixels.push(p[0]);
                pixels.push(p[1]);
                pixels.push(p[2]);
                pixels.push(p[3]);
                proof {
                    assert forall|xi: int, yi: int, c: int|
                        0 <= xi < dw && 0 <= yi < dh && 0 <= c < 4
                            && (yi < y || (yi == y && xi < x + 1))
                            implies #[trigger] seq_byte(pixels@, xi, yi, dw as int, c) == self.byte_at(
                                transformed_src_x(t, xi, yi, sw as int, sh as int),
                                transformed_src_y(t, xi, yi, sw as int, sh as int),
                                c,
                            ) by {
                        if xi == x && yi == y {
                            assert(pidx(xi, yi, dw as int) == len0);
                            assert(pixels@[len0 + 0] == p[0]);
                            assert(pixels@[len0 + 1] == p[1]);
                            assert(pixels@[len0 + 2] == p[2]);
                            assert(pixels@[len0 + 3] == p[3]);
                            assert(p == self.pixel_at(sx as int, sy as int));
                        } else {
                            lemma_raster_order(xi, yi, x as int, y as int, dw as int);
                            assert(0 <= yi * dw + xi) by (nonlinear_arith)
                                requires 0 <= xi, 0 <= yi, 0 <= dw;
                            assert((yi * dw + xi) * 4 + c < len0) by (nonlinear_arith)
                                requires
                                    yi * dw + xi < y * dw + x,
                                    len0 == (y * dw + x) * 4,
                                    0 <= c < 4,
                                    0 <= yi * dw + xi;
                            assert(seq_byte(snap, xi, yi, dw as int, c) == self.byte_at(
                                transformed_src_x(t, xi, yi, sw as int, sh as int),
                                transformed_src_y(t, xi, yi, sw as int, sh as int),
                                c,
                            ));
                            assert(pixels@[pidx(xi, yi, dw as int) + c]
                                == snap[pidx(xi, yi, dw as int) + c]);
                        }
                    }
                }
                x = x + 1;
            }
            proof {
                assert((y + 1) * dw * 4 == (y * dw + dw) * 4) by (nonlinear_arith);
            }
            y = y + 1;
        }
        let r = Bitmap { width: dw, height: dh, pixels };
        proof {
            assert(dh * dw * 4 == dw * dh * 4) by (nonlinear_arith);
        }
        r
    }
}

} // verus!
