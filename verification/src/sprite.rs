use vstd::prelude::*;

verus! {

use crate::bitmap::{Bitmap, Transform};

/// Largest sprite edge the rasterizer accepts, so that scaled footprints
/// stay far inside the signed 64-bit coordinate range.
pub const MAX_SPRITE_DIM: usize = 16384;
/// Largest display scale factor the rasterizer accepts.
pub const MAX_SCALE: u32 = 256;
/// Display scale applied when a sprite is built without an explicit one.
pub const DEFAULT_SCALE: u32 = 4;

/// A static or animated bitmap region: the decoded pixels, their intrinsic
/// size, an integer display scale, and the number of frames laid out side
/// by side along the horizontal axis.
pub struct Sprite {
    pub width: usize,
    pub height: usize,
    pub scale: u32,
    pub image: Bitmap,
    pub frame_num: u32,
}

impl Sprite {
    /// The image matches the recorded size and the scale and frame count
    /// are positive and bounded.
    pub open spec fn wf(self) -> bool {
        &&& self.image.wf()
        &&& self.image.width == self.width
        &&& self.image.height == self.height
        &&& self.width <= MAX_SPRITE_DIM
        &&& self.height <= MAX_SPRITE_DIM
        &&& 1 <= self.scale <= MAX_SCALE
        &&& 1 <= self.frame_num
    }

    /// Width of one animation frame: the strip is cut into `frame_num`
    /// equal slices.
    pub open spec fn frame_width(self) -> int {
        self.width as int / self.frame_num as int
    }

    /// Wraps a whole decoded image as a single-frame sprite.
    pub fn from_image(image: Bitmap, scale: Option<u32>) -> (r: Sprite)
        requires
            image.wf(),
            image.width <= MAX_SPRITE_DIM,
            image.height <= MAX_SPRITE_DIM,
            match scale {
                Some(s) => 1 <= s <= MAX_SCALE,
                None => true,
            },
        ensures
            r.wf(),
            r.width == image.width,
            r.height == image.height,
            r.frame_num == 1,
            r.scale == match scale {
                Some(s) => s,
                None => DEFAULT_SCALE,
            },
            r.image == image,
    {
        let width = image.width;
        let height = image.height;
        let s = match scale {
            Some(s) => s,
            None => DEFAULT_SCALE,
        };
        Sprite { width, height, scale: s, image, frame_num: 1 }
    }

    /// Wraps a whole decoded image as a horizontal frame strip.
    pub fn from_image_animated(image: Bitmap, frame_count: u32, scale: Option<u32>) -> (r: Sprite)
        requires
            image.wf(),
            image.width <= MAX_SPRITE_DIM,
            image.height <= MAX_SPRITE_DIM,
            1 <= frame_count,
            match scale {
                Some(s) => 1 <= s <= MAX_SCALE,
                None => true,
            },
        ensures
            r.wf(),
            r.width == image.width,
            r.height == image.height,
            r.frame_num == frame_count,
            r.scale == match scale {
                Some(s) => s,
                None => DEFAULT_SCALE,
            },
            r.image == image,
    {
        let width = image.width;
        let height = image.height;
        let s = match scale {
            Some(s) => s,
            None => DEFAULT_SCALE,
        };
        Sprite { width, height, scale: s, image, frame_num: frame_count }
    }

    /// Cuts cell `(x, y)` out of an atlas laid out as a `max_x` by `max_y`
    /// grid of equal cells; the sprite's pixels are exactly the pixels of
    /// that source region.
    pub fn from_grid(
        atlas: &Bitmap,
        x: u32,
        y: u32,
        max_x: u32,
        max_y: u32,
        scale: Option<u32>,
    ) -> (r: Sprite)
        requires
            atlas.wf(),
            atlas.width <= MAX_SPRITE_DIM,
            atlas.height <= MAX_SPRITE_DIM,
            1 <= max_x,
            1 <= max_y,
            x < max_x,
            y < max_y,
            match scale {
                Some(s) => 1 <= s <= MAX_SCALE,
                None => true,
            },
        ensures
            r.wf(),
            r.width == atlas.width / max_x as usize,
            r.height == atlas.height / max_y as usize,
            r.frame_num == 1,
            r.scale == match scale {
                Some(s) => s,
                None => DEFAULT_SCALE,
            },
            forall|px: int, py: int, c: int|
                0 <= px < r.width && 0 <= py < r.height && 0 <= c < 4
                    ==> r.image.byte_at(px, py, c) == atlas.byte_at(
                        x * (atlas.width / max_x as usize) + px,
                        y * (atlas.height / max_y as usize) + py,
                        c,
                    ),
    {
        let x_size: usize = atlas.width / (max_x as usize);
        let y_size: usize = atlas.height / (max_y as usize);
        proof {
            assert((x as int + 1) * x_size <= max_x * x_size) by (nonlinear_arith)
                requires x as int + 1 <= max_x as int, 0 <= x_size;
            assert(max_x * x_size <= atlas.width) by (nonlinear_arith)
                requires
                    x_size == atlas.width as int / max_x as int,
                    1 <= max_x as int,
                    0 <= atlas.width as int;
            assert((x as int + 1) * x_size == x * x_size + x_size) by (nonlinear_arith);
            assert(0 <= x * x_size) by (nonlinear_arith)
                requires 0 <= x as int, 0 <= x_size;
            assert((y as int + 1) * y_size <= max_y * y_size) by (nonlinear_arith)
                requires y as int + 1 <= max_y as int, 0 <= y_size;
            assert(max_y * y_size <= atlas.height) by (nonlinear_arith)
                requires
                    y_size == atlas.height as int / max_y as int,
                    1 <= max_y as int,
                    0 <= atlas.height as int;
            assert((y as int + 1) * y_size == y * y_size + y_size) by (nonlinear_arith);
            assert(0 <= y * y_size) by (nonlinear_arith)
                requires 0 <= y as int, 0 <= y_size;
        }
        let image = atlas.crop((x as usize) * x_size, (y as usize) * y_size, x_size, y_size);
        let s = match scale {
            Some(s) => s,
            None => DEFAULT_SCALE,
        };
        Sprite { width: x_size, height: y_size, scale: s, image, frame_num: 1 }
    }

    /// Mirrors the sprite about its vertical axis.
    pub fn flip_horizontal(&mut self)
        requires
            old(self).wf(),
        ensures
            final(self).wf(),
            final(self).width == old(self).width,
            final(self).height == old(self).height,
            final(self).scale == old(self).scale,
            final(self).frame_num == old(self).frame_num,
            forall|px: int, py: int, c: int|
                0 <= px < old(self).width && 0 <= py < old(self).height && 0 <= c < 4
                    ==> final(self).image.byte_at(px, py, c) == old(self).image.byte_at(
                        old(self).width - 1 - px,
                        py,
                        c,
                    ),
    {
        self.image = self.image.transformed(Transform::FlipHorizontal);
    }

    /// Mirrors the sprite about its horizontal axis.
    pub fn flip_vertical(&mut self)
        requires
            old(self).wf(),
        ensures
            final(self).wf(),
            final(self).width == old(self).width,
            final(self).height == old(self).height,
            final(self).scale == old(self).scale,
            final(self).frame_num == old(self).frame_num,
            forall|px: int, py: int, c: int|
                0 <= px < old(self).width && 0 <= py < old(self).height && 0 <= c < 4
                    ==> final(self).image.byte_at(px, py, c) == old(self).image.byte_at(
                        px,
                        old(self).height - 1 - py,
                        c,
                    ),
    {
        self.image = self.image.transformed(Transform::FlipVertical);
    }

    /// Rotates the sprite a quarter turn clockwise, swapping its
    /// dimensions.
    pub fn rotate_quarter(&mut self)
        requires
            old(self).wf(),
        ensures
            final(self).wf(),
            final(self).width == old(self).height,
            final(self).height == old(self).width,
            final(self).scale == old(self).scale,
            final(self).frame_num == old(self).frame_num,
            forall|px: int, py: int, c: int|
                0 <= px < old(self).height && 0 <= py < old(self).width && 0 <= c < 4
                    ==> final(self).image.byte_at(px, py, c) == old(self).image.byte_at(
                        py,
                        old(self).height - 1 - px,
                        c,
                    ),
    {
        self.image = self.image.transformed(Transform::RotateQuarter);
        let w = self.width;
        self.width = self.height;
        self.height = w;
    }

    /// Rotates the sprite a half turn.
    pub fn rotate_half(&mut self)
        requires
            old(self).wf(),
        ensures
            final(self).wf(),
            final(self).width == old(self).width,
            final(self).height == old(self).height,
            final(self).scale == old(self).scale,
            final(self).frame_num == old(self).frame_num,
            forall|px: int, py: int, c: int|
                0 <= px < old(self).width && 0 <= py < old(self).height && 0 <= c < 4
                    ==> final(self).image.byte_at(px, py, c) == old(self).image.byte_at(
                        old(self).width - 1 - px,
                        old(self).height - 1 - py,
                        c,
                    ),
    {
        self.image = self.image.transformed(Transform::RotateHalf);
    }
}

} // verus!
