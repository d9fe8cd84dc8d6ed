use vstd::prelude::*;

verus! {

use crate::bitmap::{
    Bitmap, seq_byte, pidx, lemma_pidx_bound, lemma_pidx_injective, lemma_raster_order,
    lemma_byte_index_split,
};
use crate::sprite::{Sprite, MAX_SPRITE_DIM, MAX_SCALE};

/// Largest frame-buffer edge the rasterizer accepts, so that clipped
/// coordinate arithmetic stays far inside the signed 64-bit range.
pub const MAX_FRAME_DIM: usize = 16384;

/// Channel `c` of chunk `j` in a byte buffer viewed as consecutive 4-byte
/// RGBA chunks.
pub open spec fn chunk_byte(s: Seq<u8>, j: int, c: int) -> u8 {
    s[4 * j + c]
}

/// Writes `color` into every complete 4-byte chunk of the buffer; a
/// trailing partial chunk is left unchanged.
pub fn clear_frame(color: [u8; 4], frame: &mut Vec<u8>)
    ensures
        final(frame)@.len() == old(frame)@.len(),
        forall|j: int, c: int|
            0 <= j < old(frame)@.len() / 4 && 0 <= c < 4 ==> #[trigger] chunk_byte(
                final(frame)@,
                j,
                c,
            ) == color[c],
        forall|i: int|
            old(frame)@.len() / 4 * 4 <= i < old(frame)@.len() ==> final(frame)@[i] == old(
                frame,
            )@[i],
{
    let n: usize = frame.len() / 4;
    proof {
        assert(4 * (frame@.len() / 4) <= frame@.len()) by (nonlinear_arith);
    }
    let mut j: usize = 0;
    while j < n
        invariant
            n == frame@.len() / 4,
            4 * n <= frame@.len(),
            frame@.len() <= usize::MAX,
            frame@.len() == old(frame)@.len(),
            j <= n,
            forall|jj: int, c: int|
                0 <= jj < j && 0 <= c < 4 ==> #[trigger] chunk_byte(frame@, jj, c) == color[c],
            forall|i: int| 4 * j <= i < frame@.len() ==> frame@[i] == old(frame)@[i],
        decreases n - j,
    {
        let ghost snap = frame@;
        let base: usize = 4 * j;
        frame.set(base, color[0]);
        frame.set(base + 1, color[1]);
        frame.set(base + 2, color[2]);
        frame.set(base + 3, color[3]);
        proof {
            assert forall|jj: int, c: int| 0 <= jj < j + 1 && 0 <= c < 4
                implies #[trigger] chunk_byte(frame@, jj, c) == color[c] by {
                if jj < j {
                    assert(chunk_byte(snap, jj, c) == color[c]);
                }
            }
        }
        j = j + 1;
    }
}

/// Color the raw-buffer square helper paints.
pub const HIGHLIGHT_COLOR: [u8; 4] = [0x5e, 0x48, 0xe8, 0xff];

/// Paints the fixed highlight color into every pixel of the axis-aligned
/// box, reading the buffer as consecutive RGBA chunks laid out in rows of
/// the given width; pixels outside the box and any trailing partial chunk
/// are untouched.
pub fn draw_square(
    pos_x: i32,
    pos_y: i32,
    size_x: i32,
    size_y: i32,
    frame: &mut Vec<u8>,
    width: u32,
)
    requires
        1 <= width,
    ensures
        final(frame)@.len() == old(frame)@.len(),
        forall|j: int, c: int|
            0 <= j < old(frame)@.len() / 4 && 0 <= c < 4 ==> #[trigger] chunk_byte(
                final(frame)@,
                j,
                c,
            ) == if rect_contains(
                pos_x as int,
                pos_y as int,
                size_x as int,
                size_y as int,
                j % width as int,
                j / width as int,
            ) {
                HIGHLIGHT_COLOR[c]
            } else {
                chunk_byte(old(frame)@, j, c)
            },
        forall|i: int|
            old(frame)@.len() / 4 * 4 <= i < old(frame)@.len() ==> final(frame)@[i] == old(
                frame,
            )@[i],
{
    let n: usize = frame.len() / 4;
    proof {
        assert(4 * (frame@.len() / 4) <= frame@.len()) by (nonlinear_arith);
    }
    let w: usize = width as usize;
    let mut j: usize = 0;
    while j < n
        invariant
            n == frame@.len() / 4,
            4 * n <= frame@.len(),
            frame@.len() <= usize::MAX,
            frame@.len() == old(frame)@.len(),
            j <= n,
            1 <= w,
            w == width,
            forall|jj: int, c: int|
                0 <= jj < j && 0 <= c < 4 ==> #[trigger] chunk_byte(frame@, jj, c)
                    == if rect_contains(
                    pos_x as int,
                    pos_y as int,
                    size_x as int,
                    size_y as int,
                    jj % width as int,
                    jj / width as int,
                ) {
                    HIGHLIGHT_COLOR[c]
                } else {
                    chunk_byte(old(frame)@, jj, c)
                },
            forall|i: int| 4 * j <= i < frame@.len() ==> frame@[i] == old(frame)@[i],
        decreases n - j,
    {
        let x: usize = j % w;
        let y: usize = j / w;
        let inside = (x as i64) >= pos_x as i64 && (x as i64) < pos_x as i64 + size_x as i64
            && (y as i64) >= pos_y as i64 && (y as i64) < pos_y as i64 + size_y as i64;
        let ghost snap = frame@;
        if inside {
            let base: usize = 4 * j;
            frame.set(base, HIGHLIGHT_COLOR[0]);
            frame.set(base + 1, HIGHLIGHT_COLOR[1]);
            frame.set(base + 2, HIGHLIGHT_COLOR[2]);
            frame.set(base + 3, HIGHLIGHT_COLOR[3]);
        }
        proof {
            assert forall|jj: int, c: int| 0 <= jj < j + 1 && 0 <= c < 4
                implies #[trigger] chunk_byte(frame@, jj, c) == if rect_contains(
                    pos_x as int,
                    pos_y as int,
                    size_x as int,
                    size_y as int,
                    jj % width as int,
                    jj / width as int,
                ) {
                    HIGHLIGHT_COLOR[c]
                } else {
                    chunk_byte(old(frame)@, jj, c)
                } by {
                if jj < j {
                    assert(chunk_byte(snap, jj, c) == if rect_contains(
                        pos_x as int,
                        pos_y as int,
                        size_x as int,
                        size_y as int,
                        jj % width as int,
                        jj / width as int,
                    ) {
                        HIGHLIGHT_COLOR[c]
                    } else {
                        chunk_byte(old(frame)@, jj, c)
                    });
                } else {
                    if !inside {
                        assert(chunk_byte(snap, jj, c) == chunk_byte(old(frame)@, jj, c));
                    }
                }
            }
        }
        j = j + 1;
    }
}

/// The software rasterizer: a fixed-size row-major RGBA frame buffer and
/// the draw offset added to every draw position.
pub struct Renderer {
    pub width: usize,
    pub height: usize,
    pub frame: Vec<u8>,
    pub offset_x: i32,
    pub offset_y: i32,
}

/// Whether `(px, py)` lies inside the axis-aligned box of size
/// `(sx, sy)` whose top-left corner is `(x0, y0)`.
pub open spec fn rect_contains(x0: int, y0: int, sx: int, sy: int, px: int, py: int) -> bool {
    x0 <= px < x0 + sx && y0 <= py < y0 + sy
}

/// Whether the buffer pixel `(x, y)` falls inside the scaled footprint of
/// an image slice `fw` pixels wide and `h` pixels tall blitted with its
/// top-left corner at `(bx, by)`.
pub open spec fn slice_covers(bx: int, by: int, fw: int, h: int, scale: int, x: int, y: int) -> bool {
    bx <= x < bx + fw * scale && by <= y < by + h * scale
}

/// Source column sampled for buffer pixel column `x`: nearest-lower
/// sample under integer division by the scale, shifted by the slice's
/// offset inside the image.
pub open spec fn slice_sample_x(bx: int, scale: int, x_off: int, x: int) -> int {
    (x - bx) / scale + x_off
}

/// Source row sampled for buffer pixel row `y`.
pub open spec fn slice_sample_y(by: int, scale: int, y: int) -> int {
    (y - by) / scale
}

/// Whether the source pixel sampled for buffer pixel `(x, y)` has a
/// nonzero alpha channel.
pub open spec fn slice_opaque(
    img: Bitmap,
    bx: int,
    by: int,
    scale: int,
    x_off: int,
    x: int,
    y: int,
) -> bool {
    img.byte_at(slice_sample_x(bx, scale, x_off, x), slice_sample_y(by, scale, y), 3) != 0
}

/// The channel value a blit writes at a covered, opaque pixel: the tint
/// when one is supplied, else the sampled source channel.
pub open spec fn blit_out(
    img: Bitmap,
    bx: int,
    by: int,
    scale: int,
    x_off: int,
    tint: Option<[u8; 4]>,
    x: int,
    y: int,
    c: int,
) -> u8 {
    match tint {
        Some(t) => t[c],
        None => img.byte_at(
            slice_sample_x(bx, scale, x_off, x),
            slice_sample_y(by, scale, y),
            c,
        ),
    }
}

/// A rasterized glyph: its pixel size and a coverage bitmap holding one
/// byte per pixel, read as a binary opacity test.
pub struct Glyph {
    pub width: usize,
    pub height: usize,
    pub coverage: Vec<u8>,
}

impl Glyph {
    /// The coverage bitmap matches the glyph's dimensions, which are
    /// bounded.
    pub open spec fn wf(self) -> bool {
        &&& self.coverage@.len() == self.width * self.height
        &&& self.width <= MAX_SPRITE_DIM
        &&& self.height <= MAX_SPRITE_DIM
    }
}

/// Whether the glyph placed with its top-left corner at `(gx, gy)` covers
/// the pixel `(x, y)` with a nonzero coverage byte.
pub open spec fn glyph_hit(g: Glyph, gx: int, gy: int, x: int, y: int) -> bool {
    &&& gx <= x < gx + g.width
    &&& gy <= y < gy + g.height
    &&& g.coverage@[(y - gy) * g.width + (x - gx)] != 0
}

/// Whether glyph `i` of the line starting at `(bx, by)` with the given
/// per-character spacing hits the pixel `(x, y)`.
pub open spec fn text_hit_at(
    gs: Seq<Glyph>,
    i: int,
    bx: int,
    by: int,
    spacing: int,
    x: int,
    y: int,
) -> bool {
    0 <= i < gs.len() && glyph_hit(gs[i], bx + spacing * i, by, x, y)
}

/// Whether any of the first `k` glyphs of the line hits the pixel.
pub open spec fn text_hits_prefix(
    gs: Seq<Glyph>,
    k: int,
    bx: int,
    by: int,
    spacing: int,
    x: int,
    y: int,
) -> bool {
    exists|i: int| 0 <= i < k && #[trigger] text_hit_at(gs, i, bx, by, spacing, x, y)
}

/// Whether any glyph of the line hits the pixel.
pub open spec fn text_hits(gs: Seq<Glyph>, bx: int, by: int, spacing: int, x: int, y: int) -> bool {
    text_hits_prefix(gs, gs.len() as int, bx, by, spacing, x, y)
}

/// Relation between the rasterizer before and after blitting one slice
/// of a sprite's image: covered pixels whose sampled source alpha is
/// nonzero take the blit output, every other byte is unchanged.
pub open spec fn sprite_blit_rel(
    r0: Renderer,
    r1: Renderer,
    s: Sprite,
    x_off: int,
    fw: int,
    pos_x: int,
    pos_y: int,
    tint: Option<[u8; 4]>,
) -> bool {
    &&& r1.same_config(r0)
    &&& r1.frame@.len() == r0.frame@.len()
    &&& forall|x: int, y: int, c: int|
        r0.valid_px(x, y, c) ==> #[trigger] r1.px_byte(x, y, c) == if slice_covers(
            pos_x + r0.offset_x,
            pos_y + r0.offset_y,
            fw,
            s.height as int,
            s.scale as int,
            x,
            y,
        ) && slice_opaque(
            s.image,
            pos_x + r0.offset_x,
            pos_y + r0.offset_y,
            s.scale as int,
            x_off,
            x,
            y,
        ) {
            blit_out(
                s.image,
                pos_x + r0.offset_x,
                pos_y + r0.offset_y,
                s.scale as int,
                x_off,
                tint,
                x,
                y,
                c,
            )
        } else {
            r0.px_byte(x, y, c)
        }
}

impl Renderer {
    /// The frame buffer matches the recorded dimensions, which are
    /// nonempty and bounded.
    pub open spec fn wf(self) -> bool {
        &&& self.frame@.len() == self.width * self.height * 4
        &&& 1 <= self.width <= MAX_FRAME_DIM
        &&& 1 <= self.height <= MAX_FRAME_DIM
    }

    /// Channel `c` of the frame-buffer pixel at column `x`, row `y`.
    pub open spec fn px_byte(self, x: int, y: int, c: int) -> u8 {
        seq_byte(self.frame@, x, y, self.width as int, c)
    }

    /// Whether `(x, y, c)` addresses a channel of an in-bounds pixel.
    pub open spec fn valid_px(self, x: int, y: int, c: int) -> bool {
        0 <= x < self.width && 0 <= y < self.height && 0 <= c < 4
    }

    /// The draw state carried across draw calls: dimensions and offset.
    pub open spec fn same_config(self, other: Renderer) -> bool {
        &&& self.width == other.width
        &&& self.height == other.height
        &&& self.offset_x == other.offset_x
        &&& self.offset_y == other.offset_y
    }

    /// A rasterizer with an all-zero frame buffer and a zero offset.
    pub fn new(width: usize, height: usize) -> (r: Renderer)
        requires
            1 <= width <= MAX_FRAME_DIM,
            1 <= height <= MAX_FRAME_DIM,
        ensures
            r.wf(),
            r.width == width,
            r.height == height,
            r.offset_x == 0,
            r.offset_y == 0,
            forall|i: int| 0 <= i < r.frame@.len() ==> r.frame@[i] == 0u8,
    {
        proof {
            assert(width * height * 4 <= MAX_FRAME_DIM * MAX_FRAME_DIM * 4) by (nonlinear_arith)
                requires 1 <= width <= MAX_FRAME_DIM, 1 <= height <= MAX_FRAME_DIM;
        }
        let total: usize = width * height * 4;
        let mut frame: Vec<u8> = Vec::new();
        let mut i: usize = 0;
        while i < total
            invariant
                i <= total,
                frame@.len() == i,
                forall|k: int| 0 <= k < i ==> frame@[k] == 0u8,
            decreases total - i,
        {
            frame.push(0u8);
            i = i + 1;
        }
        Renderer { width, height, frame, offset_x: 0, offset_y: 0 }
    }

    /// Replaces the draw offset; the frame buffer is untouched.
    pub fn set_offset(&mut self, offset_x: i32, offset_y: i32)
        ensures
            final(self).width == old(self).width,
            final(self).height == old(self).height,
            final(self).frame == old(self).frame,
            final(self).offset_x == offset_x,
            final(self).offset_y == offset_y,
    {
        self.offset_x = offset_x;
        self.offset_y = offset_y;
    }

    /// Writes `color` into every pixel of the frame buffer; the offset is
    /// untouched.
    pub fn clear_frame(&mut self, color: [u8; 4])
        requires
            old(self).wf(),
        ensures
            final(self).wf(),
            final(self).same_config(*old(self)),
            forall|x: int, y: int, c: int|
                old(self).valid_px(x, y, c) ==> #[trigger] final(self).px_byte(x, y, c)
                    == color[c],
    {
        clear_frame(color, &mut self.frame);
        proof {
            assert(self.frame@.len() / 4 == self.width * self.height) by (nonlinear_arith)
                requires self.frame@.len() == self.width * self.height * 4;
            assert forall|x: int, y: int, c: int| old(self).valid_px(x, y, c)
                implies #[trigger] self.px_byte(x, y, c) == color[c] by {
                lemma_pidx_bound(x, y, self.width as int, self.height as int);
                let j = y * self.width as int + x;
                assert(chunk_byte(self.frame@, j, c) == color[c]);
            }
        }
    }

    /// Overwrites one in-bounds pixel, leaving every other byte of the
    /// frame buffer unchanged.
    fn put_px(&mut self, x: usize, y: usize, color: [u8; 4])
        requires
            old(self).wf(),
            x < old(self).width,
            y < old(self).height,
        ensures
            final(self).wf(),
            final(self).same_config(*old(self)),
            forall|xi: int, yi: int, c: int|
                old(self).valid_px(xi, yi, c) ==> #[trigger] final(self).px_byte(xi, yi, c)
                    == if xi == x && yi == y {
                        color[c]
                    } else {
                        old(self).px_byte(xi, yi, c)
                    },
    {
        let _n = self.frame.len();
        proof {
            lemma_pidx_bound(x as int, y as int, self.width as int, self.height as int);
        }
        let base: usize = (y * self.width + x) * 4;
        self.frame.set(base, color[0]);
        self.frame.set(base + 1, color[1]);
        self.frame.set(base + 2, color[2]);
        self.frame.set(base + 3, color[3]);
        proof {
            assert forall|xi: int, yi: int, c: int| old(self).valid_px(xi, yi, c)
                implies #[trigger] self.px_byte(xi, yi, c) == if xi == x && yi == y {
                    color[c]
                } else {
                    old(self).px_byte(xi, yi, c)
                } by {
                lemma_pidx_bound(xi, yi, self.width as int, self.height as int);
                if xi == x && yi == y {
                } else {
                    if pidx(xi, yi, self.width as int) == pidx(
                        x as int,
                        y as int,
                        self.width as int,
                    ) {
                        lemma_pidx_injective(xi, yi, x as int, y as int, self.width as int);
                    } else {
                        lemma_raster_order(xi, yi, x as int, y as int, self.width as int);
                    }
                }
            }
        }
    }

    /// Fills the axis-aligned rectangle of the given size whose top-left
    /// corner is the draw position plus the current offset; pixels outside
    /// the frame buffer are clipped silently.
    pub fn draw_square(&mut self, pos_x: i32, pos_y: i32, size_x: i32, size_y: i32, color: [u8; 4])
        requires
            old(self).wf(),
        ensures
            final(self).wf(),
            final(self).same_config(*old(self)),
            forall|x: int, y: int, c: int|
                old(self).valid_px(x, y, c) ==> #[trigger] final(self).px_byte(x, y, c)
                    == if rect_contains(
                        pos_x + old(self).offset_x,
                        pos_y + old(self).offset_y,
                        size_x as int,
                        size_y as int,
                        x,
                        y,
                    ) {
                        color[c]
                    } else {
                        old(self).px_byte(x, y, c)
                    },
    {
        let bx: i64 = pos_x as i64 + self.offset_x as i64;
        let by: i64 = pos_y as i64 + self.offset_y as i64;
        let ex: i64 = bx + size_x as i64;
        let ey: i64 = by + size_y as i64;
        let x0: i64 = if bx < 0 { 0 } else { bx };
        let y0: i64 = if by < 0 { 0 } else { by };
        let x1: i64 = if ex > self.width as i64 { self.width as i64 } else { ex };
        let y1: i64 = if ey > self.height as i64 { self.height as i64 } else { ey };
        if x0 < x1 && y0 < y1 {
            let ux0: usize = x0 as usize;
            let uy0: usize = y0 as usize;
            let ux1: usize = x1 as usize;
            let uy1: usize = y1 as usize;
            let mut cy: usize = uy0;
            while cy < uy1
                invariant
                    self.wf(),
                    self.same_config(*old(self)),
                    old(self).wf(),
                    uy0 <= cy <= uy1,
                    ux0 < ux1 <= old(self).width,
                    uy1 <= old(self).height,
                    ux0 == if bx < 0 { 0 } else { bx },
                    uy0 == if by < 0 { 0 } else { by },
                    ux1 == if ex > old(self).width as i64 { old(self).width as int } else { ex as int },
                    uy1 == if ey > old(self).height as i64 { old(self).height as int } else { ey as int },
                    bx == pos_x + old(self).offset_x,
                    by == pos_y + old(self).offset_y,
                    ex == bx + size_x,
                    ey == by + size_y,
                    forall|x: int, y: int, c: int|
                        old(self).valid_px(x, y, c) ==> #[trigger] self.px_byte(x, y, c)
                            == if rect_contains(bx as int, by as int, size_x as int, size_y as int, x, y)
                                && y < cy {
                                color[c]
                            } else {
                                old(self).px_byte(x, y, c)
                            },
                decreases uy1 - cy,
            {
                let mut cx: usize = ux0;
                while cx < ux1
                    invariant
                        self.wf(),
                        self.same_config(*old(self)),
                        old(self).wf(),
                        uy0 <= cy < uy1,
                        ux0 <= cx <= ux1,
                        ux0 < ux1 <= old(self).width,
                        uy1 <= old(self).height,
                        ux0 == if bx < 0 { 0 } else { bx },
                        uy0 == if by < 0 { 0 } else { by },
                        ux1 == if ex > old(self).width as i64 { old(self).width as int } else { ex as int },
                        uy1 == if ey > old(self).height as i64 { old(self).height as int } else { ey as int },
                        bx == pos_x + old(self).offset_x,
                        by == pos_y + old(self).offset_y,
                        ex == bx + size_x,
                        ey == by + size_y,
                        forall|x: int, y: int, c: int|
                            old(self).valid_px(x, y, c) ==> #[trigger] self.px_byte(x, y, c)
                                == if rect_contains(bx as int, by as int, size_x as int, size_y as int, x, y)
                                    && (y < cy || (y == cy && x < cx)) {
                                    color[c]
                                } else {
                                    old(self).px_byte(x, y, c)
                                },
                    decreases ux1 - cx,
                {
                    self.put_px(cx, cy, color);
                    cx = cx + 1;
                }
                cy = cy + 1;
            }
        }
    }

    /// Blits the slice of `image` that starts `x_off` columns in and is
    /// `fw` columns wide, scaled by `scale`, with its top-left corner at
    /// the draw position plus the current offset.  Source pixels with a
    /// zero alpha leave the destination untouched; opaque ones write the
    /// tint when one is supplied, else the sampled source pixel.  Writes
    /// outside the frame buffer are clipped silently.
    fn blit(
        &mut self,
        pos_x: i32,
        pos_y: i32,
        image: &Bitmap,
        x_off: usize,
        fw: usize,
        scale: u32,
        tint: Option<[u8; 4]>,
    )
        requires
            old(self).wf(),
            image.wf(),
            x_off + fw <= image.width,
            image.width <= MAX_SPRITE_DIM,
            image.height <= MAX_SPRITE_DIM,
            1 <= scale <= MAX_SCALE,
        ensures
            final(self).wf(),
            final(self).same_config(*old(self)),
            forall|x: int, y: int, c: int|
                old(self).valid_px(x, y, c) ==> #[trigger] final(self).px_byte(x, y, c)
                    == if slice_covers(
                        pos_x + old(self).offset_x,
                        pos_y + old(self).offset_y,
                        fw as int,
                        image.height as int,
                        scale as int,
                        x,
                        y,
                    ) && slice_opaque(
                        *image,
                        pos_x + old(self).offset_x,
                        pos_y + old(self).offset_y,
                        scale as int,
                        x_off as int,
                        x,
                        y,
                    ) {
                        blit_out(
                            *image,
                            pos_x + old(self).offset_x,
                            pos_y + old(self).offset_y,
                            scale as int,
                            x_off as int,
                            tint,
                            x,
                            y,
                            c,
                        )
                    } else {
                        old(self).px_byte(x, y, c)
                    },
    {
        let bx: i64 = pos_x as i64 + self.offset_x as i64;
        let by: i64 = pos_y as i64 + self.offset_y as i64;
        proof {
            assert(fw * scale <= MAX_SPRITE_DIM * MAX_SCALE) by (nonlinear_arith)
                requires fw <= MAX_SPRITE_DIM, scale <= MAX_SCALE, 0 <= fw, 0 <= scale;
            assert(image.height * scale <= MAX_SPRITE_DIM * MAX_SCALE) by (nonlinear_arith)
                requires image.height <= MAX_SPRITE_DIM, scale <= MAX_SCALE, 0 <= image.height, 0 <= scale;
        }
        let foot_w: usize = fw * (scale as usize);
        let foot_h: usize = image.height * (scale as usize);
        let ex: i64 = bx + foot_w as i64;
        let ey: i64 = by + foot_h as i64;
        let x0: i64 = if bx < 0 { 0 } else { bx };
        let y0: i64 = if by < 0 { 0 } else { by };
        let x1: i64 = if ex > self.width as i64 { self.width as i64 } else { ex };
        let y1: i64 = if ey > self.height as i64 { self.height as i64 } else { ey };
        if x0 < x1 && y0 < y1 {
            let ux0: usize = x0 as usize;
            let uy0: usize = y0 as usize;
            let ux1: usize = x1 as usize;
            let uy1: usize = y1 as usize;
            let mut cy: usize = uy0;
            while cy < uy1
                invariant
                    self.wf(),
                    self.same_config(*old(self)),
                    old(self).wf(),
                    image.wf(),
                    x_off + fw <= image.width,
                    1 <= scale <= MAX_SCALE,
                    uy0 <= cy <= uy1,
                    ux0 < ux1 <= old(self).width,
                    uy1 <= old(self).height,
                    bx == pos_x + old(self).offset_x,
                    by == pos_y + old(self).offset_y,
                    foot_w == fw * scale,
                    foot_h == image.height * scale,
                    ex == bx + foot_w,
                    ey == by + foot_h,
                    ux0 == if bx < 0 { 0 } else { bx },
                    uy0 == if by < 0 { 0 } else { by },
                    ux1 == if ex > old(self).width as i64 { old(self).width as int } else { ex as int },
                    uy1 == if ey > old(self).height as i64 { old(self).height as int } else { ey as int },
                    forall|x: int, y: int, c: int|
                        old(self).valid_px(x, y, c) ==> #[trigger] self.px_byte(x, y, c)
                            == if slice_covers(bx as int, by as int, fw as int, image.height as int, scale as int, x, y)
                                && slice_opaque(*image, bx as int, by as int, scale as int, x_off as int, x, y)
                                && y < cy {
                                blit_out(*image, bx as int, by as int, scale as int, x_off as int, tint, x, y, c)
                            } else {
                                old(self).px_byte(x, y, c)
                            },
                decreases uy1 - cy,
            {
                let mut cx: usize = ux0;
                while cx < ux1
                    invariant
                        self.wf(),
                        self.same_config(*old(self)),
                        old(self).wf(),
                        image.wf(),
                        x_off + fw <= image.width,
                        1 <= scale <= MAX_SCALE,
                        uy0 <= cy < uy1,
                        ux0 <= cx <= ux1,
                        ux0 < ux1 <= old(self).width,
                        uy1 <= old(self).height,
                        bx == pos_x + old(self).offset_x,
                        by == pos_y + old(self).offset_y,
                        foot_w == fw * scale,
                        foot_h == image.height * scale,
                        ex == bx + foot_w,
                        ey == by + foot_h,
                        ux0 == if bx < 0 { 0 } else { bx },
                        uy0 == if by < 0 { 0 } else { by },
                        ux1 == if ex > old(self).width as i64 { old(self).width as int } else { ex as int },
                        uy1 == if ey > old(self).height as i64 { old(self).height as int } else { ey as int },
                        forall|x: int, y: int, c: int|
                            old(self).valid_px(x, y, c) ==> #[trigger] self.px_byte(x, y, c)
                                == if slice_covers(bx as int, by as int, fw as int, image.height as int, scale as int, x, y)
                                    && slice_opaque(*image, bx as int, by as int, scale as int, x_off as int, x, y)
                                    && (y < cy || (y == cy && x < cx)) {
                                    blit_out(*image, bx as int, by as int, scale as int, x_off as int, tint, x, y, c)
                                } else {
                                    old(self).px_byte(x, y, c)
                                },
                    decreases ux1 - cx,
                {
                    let dx: usize = (cx as i64 - bx) as usize;
                    let dy: usize = (cy as i64 - by) as usize;
                    let su: usize = dx / (scale as usize);
                    let sv: usize = dy / (scale as usize);
                    proof {
                        assert((dx as int) / (scale as int) < fw as int) by (nonlinear_arith)
                            requires (dx as int) < (fw as int) * (scale as int), 1 <= (scale as int), 0 <= (dx as int);
                        assert((dy as int) / (scale as int) < image.height as int) by (nonlinear_arith)
                            requires (dy as int) < (image.height as int) * (scale as int), 1 <= (scale as int), 0 <= (dy as int);
                        assert(su as int == slice_sample_x(bx as int, scale as int, 0, cx as int));
                        assert(sv as int == slice_sample_y(by as int, scale as int, cy as int));
                    }
                    let sx: usize = x_off + su;
                    let p = image.get_pixel(sx, sv);
                    if p[3] != 0 {
                        let out: [u8; 4] = match tint {
                            Some(t) => t,
                            None => p,
                        };
                        self.put_px(cx, cy, out);
                    }
                    cx = cx + 1;
                }
                cy = cy + 1;
            }
        }
    }

    /// Blits the whole sprite, scaled by its display scale, at the draw
    /// position plus the current offset, with alpha-test transparency and
    /// silent clipping.
    pub fn draw_sprite(&mut self, pos_x: i32, pos_y: i32, sprite: &Sprite)
        requires
            old(self).wf(),
            sprite.wf(),
        ensures
            final(self).wf(),
            final(self).same_config(*old(self)),
            sprite_blit_rel(
                *old(self),
                *final(self),
                *sprite,
                0,
                sprite.width as int,
                pos_x as int,
                pos_y as int,
                None,
            ),
    {
        self.blit(pos_x, pos_y, &sprite.image, 0, sprite.width, sprite.scale, None);
    }

    /// Blits the whole sprite as `draw_sprite` does, but writes the given
    /// color at every covered opaque pixel instead of the sampled pixel.
    pub fn draw_sprite_color(&mut self, pos_x: i32, pos_y: i32, sprite: &Sprite, color: [u8; 4])
        requires
            old(self).wf(),
            sprite.wf(),
        ensures
            final(self).wf(),
            final(self).same_config(*old(self)),
            sprite_blit_rel(
                *old(self),
                *final(self),
                *sprite,
                0,
                sprite.width as int,
                pos_x as int,
                pos_y as int,
                Some(color),
            ),
    {
        self.blit(pos_x, pos_y, &sprite.image, 0, sprite.width, sprite.scale, Some(color));
    }

    /// Blits one frame of an animated sprite: the sampled column is
    /// shifted by the frame index times the effective frame width.  The
    /// frame index must already be range-limited by the caller.
    pub fn draw_sprite_animated(&mut self, pos_x: i32, pos_y: i32, sprite: &Sprite, frame: u32)
        requires
            old(self).wf(),
            sprite.wf(),
            frame < sprite.frame_num,
        ensures
            final(self).wf(),
            final(self).same_config(*old(self)),
            sprite_blit_rel(
                *old(self),
                *final(self),
                *sprite,
                frame * sprite.frame_width(),
                sprite.frame_width(),
                pos_x as int,
                pos_y as int,
                None,
            ),
    {
        let fw: usize = sprite.width / (sprite.frame_num as usize);
        proof {
            assert((frame as int) * fw + fw <= (sprite.frame_num as int) * fw) by (nonlinear_arith)
                requires frame as int + 1 <= sprite.frame_num as int, 0 <= fw;
            assert((sprite.frame_num as int) * fw <= sprite.width) by (nonlinear_arith)
                requires
                    fw == sprite.width as int / sprite.frame_num as int,
                    1 <= sprite.frame_num as int,
                    0 <= sprite.width as int;
            assert(0 <= (frame as int) * fw) by (nonlinear_arith)
                requires 0 <= frame as int, 0 <= fw;
        }
        let x_off: usize = (frame as usize) * fw;
        self.blit(pos_x, pos_y, &sprite.image, x_off, fw, sprite.scale, None);
    }

    /// Writes `color` at every buffer pixel covered by a nonzero byte of
    /// the glyph's coverage bitmap placed with its top-left corner at
    /// `(bx, by)`; everything else is untouched and writes outside the
    /// frame buffer are clipped silently.
    fn draw_glyph_at(&mut self, bx: i64, by: i64, glyph: &Glyph, color: [u8; 4])
        requires
            old(self).wf(),
            glyph.wf(),
            -0x4000_0000_0000_0000 <= bx <= 0x4000_0000_0000_0000,
            -0x4000_0000_0000_0000 <= by <= 0x4000_0000_0000_0000,
        ensures
            final(self).wf(),
            final(self).same_config(*old(self)),
            forall|x: int, y: int, c: int|
                old(self).valid_px(x, y, c) ==> #[trigger] final(self).px_byte(x, y, c)
                    == if glyph_hit(*glyph, bx as int, by as int, x, y) {
                        color[c]
                    } else {
                        old(self).px_byte(x, y, c)
                    },
    {
        let gw: usize = glyph.width;
        let gh: usize = glyph.height;
        let ex: i64 = bx + gw as i64;
        let ey: i64 = by + gh as i64;
        let x0: i64 = if bx < 0 { 0 } else { bx };
        let y0: i64 = if by < 0 { 0 } else { by };
        let x1: i64 = if ex > self.width as i64 { self.width as i64 } else { ex };
        let y1: i64 = if ey > self.height as i64 { self.height as i64 } else { ey };
        if x0 < x1 && y0 < y1 {
            let ux0: usize = x0 as usize;
            let uy0: usize = y0 as usize;
            let ux1: usize = x1 as usize;
            let uy1: usize = y1 as usize;
            let mut cy: usize = uy0;
            while cy < uy1
                invariant
                    self.wf(),
                    self.same_config(*old(self)),
                    old(self).wf(),
                    glyph.wf(),
                    gw == glyph.width,
                    gh == glyph.height,
                    uy0 <= cy <= uy1,
                    ux0 < ux1 <= old(self).width,
                    uy1 <= old(self).height,
                    ex == bx + gw,
                    ey == by + gh,
                    ux0 == if bx < 0 { 0 } else { bx },
                    uy0 == if by < 0 { 0 } else { by },
                    ux1 == if ex > old(self).width as i64 { old(self).width as int } else { ex as int },
                    uy1 == if ey > old(self).height as i64 { old(self).height as int } else { ey as int },
                    forall|x: int, y: int, c: int|
                        old(self).valid_px(x, y, c) ==> #[trigger] self.px_byte(x, y, c)
                            == if glyph_hit(*glyph, bx as int, by as int, x, y) && y < cy {
                                color[c]
                            } else {
                                old(self).px_byte(x, y, c)
                            },
                decreases uy1 - cy,
            {
                let mut cx: usize = ux0;
                while cx < ux1
                    invariant
                        self.wf(),
                        self.same_config(*old(self)),
                        old(self).wf(),
                        glyph.wf(),
                        gw == glyph.width,
                        gh == glyph.height,
                        uy0 <= cy < uy1,
                        ux0 <= cx <= ux1,
                        ux0 < ux1 <= old(self).width,
                        uy1 <= old(self).height,
                        ex == bx + gw,
                        ey == by + gh,
                        ux0 == if bx < 0 { 0 } else { bx },
                        uy0 == if by < 0 { 0 } else { by },
                        ux1 == if ex > old(self).width as i64 { old(self).width as int } else { ex as int },
                        uy1 == if ey > old(self).height as i64 { old(self).height as int } else { ey as int },
                        forall|x: int, y: int, c: int|
                            old(self).valid_px(x, y, c) ==> #[trigger] self.px_byte(x, y, c)
                                == if glyph_hit(*glyph, bx as int, by as int, x, y)
                                    && (y < cy || (y == cy && x < cx)) {
                                    color[c]
                                } else {
                                    old(self).px_byte(x, y, c)
                                },
                    decreases ux1 - cx,
                {
                    let dx: usize = (cx as i64 - bx) as usize;
                    let dy: usize = (cy as i64 - by) as usize;
                    proof {
                        assert(dy * gw + dx < gw * gh) by (nonlinear_arith)
                            requires 0 <= dx < gw, 0 <= dy < gh;
                        assert(gw * gh <= MAX_SPRITE_DIM * MAX_SPRITE_DIM) by (nonlinear_arith)
                            requires 0 <= gw <= MAX_SPRITE_DIM, 0 <= gh <= MAX_SPRITE_DIM;
                    }
                    let cov = glyph.coverage[dy * gw + dx];
                    if cov != 0 {
                        self.put_px(cx, cy, color);
                    }
                    cx = cx + 1;
                }
                cy = cy + 1;
            }
        }
    }

    /// Rasterized-glyph blit at the draw position plus the current
    /// offset: writes `color` wherever the glyph's coverage bitmap is
    /// nonzero, with alpha-test semantics and silent clipping.
    pub fn draw_char(&mut self, pos_x: i32, pos_y: i32, glyph: &Glyph, color: [u8; 4])
        requires
            old(self).wf(),
            glyph.wf(),
        ensures
            final(self).wf(),
            final(self).same_config(*old(self)),
            forall|x: int, y: int, c: int|
                old(self).valid_px(x, y, c) ==> #[trigger] final(self).px_byte(x, y, c)
                    == if glyph_hit(
                        *glyph,
                        pos_x + old(self).offset_x,
                        pos_y + old(self).offset_y,
                        x,
                        y,
                    ) {
                        color[c]
                    } else {
                        old(self).px_byte(x, y, c)
                    },
    {
        let bx: i64 = pos_x as i64 + self.offset_x as i64;
        let by: i64 = pos_y as i64 + self.offset_y as i64;
        self.draw_glyph_at(bx, by, glyph, color);
    }

    /// Lays out a line of pre-rasterized glyphs: glyph `i` is drawn at
    /// the draw position advanced by `i` times the fixed per-character
    /// spacing, regardless of glyph metrics.  A pixel ends up as `color`
    /// exactly when some glyph's coverage hits it.
    pub fn draw_text(
        &mut self,
        pos_x: i32,
        pos_y: i32,
        glyphs: &Vec<Glyph>,
        spacing: i32,
        color: [u8; 4],
    )
        requires
            old(self).wf(),
            forall|i: int| 0 <= i < glyphs@.len() ==> (#[trigger] glyphs@[i]).wf(),
            glyphs@.len() <= 16384,
        ensures
            final(self).wf(),
            final(self).same_config(*old(self)),
            forall|x: int, y: int, c: int|
                old(self).valid_px(x, y, c) ==> #[trigger] final(self).px_byte(x, y, c)
                    == if text_hits(
                        glyphs@,
                        pos_x + old(self).offset_x,
                        pos_y + old(self).offset_y,
                        spacing as int,
                        x,
                        y,
                    ) {
                        color[c]
                    } else {
                        old(self).px_byte(x, y, c)
                    },
    {
        let bx: i64 = pos_x as i64 + self.offset_x as i64;
        let by: i64 = pos_y as i64 + self.offset_y as i64;
        let n: usize = glyphs.len();
        let mut k: usize = 0;
        while k < n
            invariant
                self.wf(),
                self.same_config(*old(self)),
                old(self).wf(),
                forall|i: int| 0 <= i < glyphs@.len() ==> (#[trigger] glyphs@[i]).wf(),
                glyphs@.len() <= 16384,
                n == glyphs@.len(),
                k <= n,
                bx == pos_x + old(self).offset_x,
                by == pos_y + old(self).offset_y,
                forall|x: int, y: int, c: int|
                    old(self).valid_px(x, y, c) ==> #[trigger] self.px_byte(x, y, c)
                        == if text_hits_prefix(glyphs@, k as int, bx as int, by as int, spacing as int, x, y) {
                            color[c]
                        } else {
                            old(self).px_byte(x, y, c)
                        },
            decreases n - k,
        {
            proof {
                assert(-0x8000_0000_0000 <= (spacing as int) * (k as int) <= 0x8000_0000_0000)
                    by (nonlinear_arith)
                    requires -0x8000_0000 <= spacing as int <= 0x8000_0000, 0 <= k as int <= 0x4000;
            }
            let gx: i64 = bx + (spacing as i64) * (k as i64);
            let ghost pre = *self;
            let g = &glyphs[k];
            self.draw_glyph_at(gx, by, g, color);
            proof {
                assert forall|x: int, y: int, c: int| old(self).valid_px(x, y, c)
                    implies #[trigger] self.px_byte(x, y, c) == if text_hits_prefix(
                        glyphs@,
                        k + 1,
                        bx as int,
                        by as int,
                        spacing as int,
                        x,
                        y,
                    ) {
                        color[c]
                    } else {
                        old(self).px_byte(x, y, c)
                    } by {
                    if glyph_hit(glyphs@[k as int], gx as int, by as int, x, y) {
                        assert(text_hit_at(glyphs@, k as int, bx as int, by as int, spacing as int, x, y));
                        assert(text_hits_prefix(glyphs@, k + 1, bx as int, by as int, spacing as int, x, y));
                    } else {
                        assert(self.px_byte(x, y, c) == pre.px_byte(x, y, c));
                        if text_hits_prefix(glyphs@, k as int, bx as int, by as int, spacing as int, x, y) {
                            let i = choose|i: int|
                                0 <= i < k as int && #[trigger] text_hit_at(
                                    glyphs@,
                                    i,
                                    bx as int,
                                    by as int,
                                    spacing as int,
                                    x,
                                    y,
                                );
                            assert(text_hit_at(glyphs@, i, bx as int, by as int, spacing as int, x, y));
                            assert(text_hits_prefix(glyphs@, k + 1, bx as int, by as int, spacing as int, x, y));
                        } else {
                            if text_hits_prefix(glyphs@, k + 1, bx as int, by as int, spacing as int, x, y) {
                                let i = choose|i: int|
                                    0 <= i < k + 1 && #[trigger] text_hit_at(
                                        glyphs@,
                                        i,
                                        bx as int,
                                        by as int,
                                        spacing as int,
                                        x,
                                        y,
                                    );
                                if i == k as int {
                                    assert(glyph_hit(glyphs@[k as int], gx as int, by as int, x, y));
                                    assert(false);
                                } else {
                                    assert(text_hits_prefix(glyphs@, k as int, bx as int, by as int, spacing as int, x, y));
                                    assert(false);
                                }
                            }
                        }
                    }
                }
            }
            k = k + 1;
        }
        proof {
            assert forall|x: int, y: int, c: int| old(self).valid_px(x, y, c)
                implies #[trigger] self.px_byte(x, y, c) == if text_hits(
                    glyphs@,
                    bx as int,
                    by as int,
                    spacing as int,
                    x,
                    y,
                ) {
                    color[c]
                } else {
                    old(self).px_byte(x, y, c)
                } by {
                assert(text_hits(glyphs@, bx as int, by as int, spacing as int, x, y)
                    == text_hits_prefix(glyphs@, glyphs@.len() as int, bx as int, by as int, spacing as int, x, y));
            }
        }
    }
}

/// A fully transparent sprite blits to nothing: after any blit of a
/// slice of it, the frame buffer is byte-for-byte unchanged.
pub proof fn lemma_transparent_blit_unchanged(
    r0: Renderer,
    r1: Renderer,
    s: Sprite,
    x_off: int,
    fw: int,
    pos_x: int,
    pos_y: int,
    tint: Option<[u8; 4]>,
)
    requires
        r0.wf(),
        s.wf(),
        0 <= x_off,
        x_off + fw <= s.width,
        forall|sx: int, sy: int|
            0 <= sx < s.width && 0 <= sy < s.height ==> #[trigger] s.image.byte_at(sx, sy, 3)
                == 0,
        sprite_blit_rel(r0, r1, s, x_off, fw, pos_x, pos_y, tint),
    ensures
        r1.frame@ == r0.frame@,
{
    let bx = pos_x + r0.offset_x;
    let by = pos_y + r0.offset_y;
    let scale = s.scale as int;
    assert forall|x: int, y: int, c: int| r0.valid_px(x, y, c)
        implies r1.px_byte(x, y, c) == r0.px_byte(x, y, c) by {
        if slice_covers(bx, by, fw, s.height as int, scale, x, y) {
            let su = (x - bx) / scale;
            let sv = (y - by) / scale;
            assert(0 <= su < fw && 0 <= sv < s.height) by (nonlinear_arith)
                requires
                    0 <= x - bx < fw * scale,
                    0 <= y - by < s.height as int * scale,
                    1 <= scale,
                    su == (x - bx) / scale,
                    sv == (y - by) / scale;
            assert(s.image.byte_at(su + x_off, sv, 3) == 0);
            assert(!slice_opaque(s.image, bx, by, scale, x_off, x, y));
        }
    }
    assert(r1.frame@ =~= r0.frame@) by {
        assert forall|i: int| 0 <= i < r0.frame@.len() implies r1.frame@[i] == r0.frame@[i] by {
            lemma_byte_index_split(i, r0.width as int, r0.height as int);
            let x = (i / 4) % r0.width as int;
            let y = (i / 4) / r0.width as int;
            let c = i % 4;
            assert(r1.px_byte(x, y, c) == r0.px_byte(x, y, c));
        }
    }
}

/// Round trip through the atlas: a sprite cut from a grid atlas cell and
/// then blitted at its native scale reproduces, at every covered pixel,
/// exactly the bytes of the source region it was cut from; transparent
/// source pixels leave the destination untouched.
pub proof fn lemma_atlas_slice_round_trip(
    atlas: Bitmap,
    s: Sprite,
    r0: Renderer,
    r1: Renderer,
    cell_x: int,
    cell_y: int,
    pos_x: int,
    pos_y: int,
)
    requires
        r0.wf(),
        s.wf(),
        s.scale == 1,
        0 <= cell_x,
        0 <= cell_y,
        0 <= cell_x * s.width,
        0 <= cell_y * s.height,
        forall|px: int, py: int, c: int|
            0 <= px < s.width && 0 <= py < s.height && 0 <= c < 4
                ==> #[trigger] s.image.byte_at(px, py, c) == atlas.byte_at(
                    cell_x * s.width + px,
                    cell_y * s.height + py,
                    c,
                ),
        sprite_blit_rel(r0, r1, s, 0, s.width as int, pos_x, pos_y, None),
    ensures
        forall|x: int, y: int, c: int|
            r0.valid_px(x, y, c) && rect_contains(
                pos_x + r0.offset_x,
                pos_y + r0.offset_y,
                s.width as int,
                s.height as int,
                x,
                y,
            ) ==> #[trigger] r1.px_byte(x, y, c) == if atlas.byte_at(
                cell_x * s.width + (x - (pos_x + r0.offset_x)),
                cell_y * s.height + (y - (pos_y + r0.offset_y)),
                3,
            ) == 0 {
                r0.px_byte(x, y, c)
            } else {
                atlas.byte_at(
                    cell_x * s.width + (x - (pos_x + r0.offset_x)),
                    cell_y * s.height + (y - (pos_y + r0.offset_y)),
                    c,
                )
            },
{
    let bx = pos_x + r0.offset_x;
    let by = pos_y + r0.offset_y;
    assert forall|x: int, y: int, c: int|
        r0.valid_px(x, y, c) && rect_contains(bx, by, s.width as int, s.height as int, x, y)
        implies #[trigger] r1.px_byte(x, y, c) == if atlas.byte_at(
            cell_x * s.width + (x - bx),
            cell_y * s.height + (y - by),
            3,
        ) == 0 {
            r0.px_byte(x, y, c)
        } else {
            atlas.byte_at(cell_x * s.width + (x - bx), cell_y * s.height + (y - by), c)
        } by {
        assert(s.width as int * 1 == s.width as int);
        assert(s.height as int * 1 == s.height as int);
        assert(slice_covers(bx, by, s.width as int, s.height as int, 1, x, y));
        assert((x - bx) / 1 == x - bx);
        assert((y - by) / 1 == y - by);
        let su = x - bx;
        let sv = y - by;
        assert(slice_sample_x(bx, 1, 0, x) == su);
        assert(slice_sample_y(by, 1, y) == sv);
        assert(s.image.byte_at(su, sv, 3) == atlas.byte_at(
            cell_x * s.width + su,
            cell_y * s.height + sv,
            3,
        ));
        assert(s.image.byte_at(su, sv, c) == atlas.byte_at(
            cell_x * s.width + su,
            cell_y * s.height + sv,
            c,
        ));
    }
}

} // verus!
