use vstd::prelude::*;

verus! {

use crate::bitmap::{Bitmap, Transform, transformed_width, transformed_height, transformed_src_x, transformed_src_y};
use crate::renderer::{Renderer, slice_covers, slice_opaque, sprite_blit_rel};
use crate::grid::{
    Grid, Cell, Occupant, TRAIL_TICKS, cell_index, lemma_cell_index_split, mask_has_up,
    mask_has_right, mask_has_down, mask_has_left, mask_up, mask_right, mask_down, mask_left,
};
use crate::rng::rng_from_seed;
use crate::sprite::Sprite;
use crate::track::{gen_track, evaluate_all_tracks, eligible, first_run_len, masks_recorded, STOP_MARGIN};

/// Width of the frame buffer in pixels.
pub const WIDTH: u32 = 640;
/// Height of the frame buffer in pixels.
pub const HEIGHT: u32 = 480;
/// Edge length of one grid cell on screen, in pixels.
pub const CELL_SIZE: i32 = 32;
/// Default number of grid columns.
pub const GRID_WIDTH: usize = 50;
/// Default number of grid rows: what fits the frame height, less one.
pub const GRID_HEIGHT: usize = 14;
/// Column of the cell where the reset pass seeds the player and track.
pub const SEED_X: u32 = 0;
/// Row of the cell where the reset pass seeds the player and track.
pub const SEED_Y: u32 = 5;

/// Number of atlas columns in the tile sheet the sprites are cut from.
pub const TILESHEET_MAX_X: u32 = 49;
/// Number of atlas rows in the tile sheet the sprites are cut from.
pub const TILESHEET_MAX_Y: u32 = 22;

/// Milliseconds between automatic moves when the game starts.
pub const MOVE_INTERVAL_START_MS: u64 = 2000;
/// Largest automatic-move interval, in milliseconds.
pub const MOVE_INTERVAL_MAX_MS: u64 = 3000;
/// Smallest automatic-move interval, in milliseconds.
pub const MOVE_INTERVAL_MIN_MS: u64 = 200;
/// Amount one key press changes the automatic-move interval by.
pub const MOVE_INTERVAL_STEP_MS: u64 = 200;

/// One frame's worth of already-polled input, handed in as plain values.
#[derive(Clone, Copy, PartialEq, Eq, Structural)]
pub struct Input {
    /// The key that slows the automatic mover was freshly pressed.
    pub slower_pressed: bool,
    /// The key that speeds the automatic mover up was freshly pressed.
    pub faster_pressed: bool,
    /// Scroll the view up.
    pub scroll_up: bool,
    /// Scroll the view down.
    pub scroll_down: bool,
    /// Scroll the view left.
    pub scroll_left: bool,
    /// Scroll the view right.
    pub scroll_right: bool,
}

impl Input {
    /// A frame with no key pressed.
    pub fn none() -> (r: Input)
        ensures
            r == (Input {
                slower_pressed: false,
                faster_pressed: false,
                scroll_up: false,
                scroll_down: false,
                scroll_left: false,
                scroll_right: false,
            }),
    {
        Input {
            slower_pressed: false,
            faster_pressed: false,
            scroll_up: false,
            scroll_down: false,
            scroll_left: false,
            scroll_right: false,
        }
    }
}

/// A moving actor: a position and a velocity in whole pixels.
#[derive(Clone, Copy, PartialEq, Eq, Structural)]
pub struct Entity {
    pub pos_x: i64,
    pub pos_y: i64,
    pub vel_x: i64,
    pub vel_y: i64,
}

impl Entity {
    /// An actor standing still at the given position.
    pub fn new(pos_x: i64, pos_y: i64) -> (r: Entity)
        ensures
            r == (Entity { pos_x, pos_y, vel_x: 0, vel_y: 0 }),
    {
        Entity { pos_x, pos_y, vel_x: 0, vel_y: 0 }
    }
}

/// The track-tile art variant drawn for one connectivity mask.
#[derive(Clone, Copy, PartialEq, Eq, Structural, Debug)]
pub enum TrackTile {
    Vertical,
    Horizontal,
    CornerTopRight,
    CornerTopLeft,
    CornerBottomRight,
    CornerBottomLeft,
    TJunction,
    Crossing,
}

/// The tile variant the draw pass selects for a connectivity mask:
/// through-lines first (with a junction when a third neighbour joins),
/// then corners, and a crossing for anything else.
pub open spec fn spec_track_tile(m: u8) -> TrackTile {
    if mask_has_up(m) && mask_has_down(m) {
        if mask_has_right(m) {
            TrackTile::TJunction
        } else {
            TrackTile::Vertical
        }
    } else if mask_has_right(m) && mask_has_left(m) {
        if mask_has_down(m) {
            TrackTile::TJunction
        } else {
            TrackTile::Horizontal
        }
    } else if mask_has_up(m) && mask_has_right(m) {
        TrackTile::CornerTopRight
    } else if mask_has_up(m) && mask_has_left(m) {
        TrackTile::CornerTopLeft
    } else if mask_has_down(m) && mask_has_right(m) {
        TrackTile::CornerBottomRight
    } else if mask_has_down(m) && mask_has_left(m) {
        TrackTile::CornerBottomLeft
    } else {
        TrackTile::Crossing
    }
}

/// Selects the track-tile art variant for a connectivity mask.
pub fn track_tile_for_mask(m: u8) -> (r: TrackTile)
    ensures
        r == spec_track_tile(m),
{
    let up = mask_up(m);
    let right = mask_right(m);
    let down = mask_down(m);
    let left = mask_left(m);
    if up && down {
        if right {
            TrackTile::TJunction
        } else {
            TrackTile::Vertical
        }
    } else if right && left {
        if down {
            TrackTile::TJunction
        } else {
            TrackTile::Horizontal
        }
    } else if up && right {
        TrackTile::CornerTopRight
    } else if up && left {
        TrackTile::CornerTopLeft
    } else if down && right {
        TrackTile::CornerBottomRight
    } else if down && left {
        TrackTile::CornerBottomLeft
    } else {
        TrackTile::Crossing
    }
}

/// The sprite's scaled footprint fits inside one grid cell on screen, so
/// the boxes the draw pass writes into never overlap across cells.
pub open spec fn fits_cell(s: Sprite) -> bool {
    &&& s.width as int * s.scale as int <= CELL_SIZE
    &&& s.height as int * s.scale as int <= CELL_SIZE
}

/// The sprite holds exactly the pixels of atlas cell `(cx, cy)` under the
/// tile sheet's fixed column and row counts, at display scale 2.
pub open spec fn atlas_cell_sprite(s: Sprite, atlas: Bitmap, cx: int, cy: int) -> bool {
    let w0 = atlas.width as int / TILESHEET_MAX_X as int;
    let h0 = atlas.height as int / TILESHEET_MAX_Y as int;
    &&& s.width == w0
    &&& s.height == h0
    &&& s.frame_num == 1
    &&& s.scale == 2
    &&& forall|px: int, py: int, c: int|
        0 <= px < w0 && 0 <= py < h0 && 0 <= c < 4 ==> #[trigger] s.image.byte_at(px, py, c)
            == atlas.byte_at(cx * w0 + px, cy * h0 + py, c)
}

/// The sprite holds the pixels of atlas cell `(cx, cy)` with the given
/// geometric transform applied once, at display scale 2.
pub open spec fn atlas_cell_sprite_via(
    s: Sprite,
    atlas: Bitmap,
    cx: int,
    cy: int,
    t: Transform,
) -> bool {
    let w0 = atlas.width as int / TILESHEET_MAX_X as int;
    let h0 = atlas.height as int / TILESHEET_MAX_Y as int;
    &&& s.width == transformed_width(t, w0, h0)
    &&& s.height == transformed_height(t, w0, h0)
    &&& s.frame_num == 1
    &&& s.scale == 2
    &&& forall|px: int, py: int, c: int|
        0 <= px < s.width && 0 <= py < s.height && 0 <= c < 4 ==> #[trigger] s.image.byte_at(
            px,
            py,
            c,
        ) == atlas.byte_at(
            cx * w0 + transformed_src_x(t, px, py, w0, h0),
            cy * h0 + transformed_src_y(t, px, py, w0, h0),
            c,
        )
}

/// The sprite fields, which spec-wise are immutable once construction
/// has cut them from the atlas, are exactly those of `pre`.
pub open spec fn same_sprites(pre: Game, post: Game) -> bool {
    &&& post.player_sprite_right == pre.player_sprite_right
    &&& post.player_sprite_up == pre.player_sprite_up
    &&& post.player_sprite_down == pre.player_sprite_down
    &&& post.enemy_sprite == pre.enemy_sprite
    &&& post.test_tile == pre.test_tile
    &&& post.track_tile_normal == pre.track_tile_normal
    &&& post.track_tile_flipped == pre.track_tile_flipped
    &&& post.track_tile_corner_t_r == pre.track_tile_corner_t_r
    &&& post.track_tile_corner_t_l == pre.track_tile_corner_t_l
    &&& post.track_tile_corner_b_r == pre.track_tile_corner_b_r
    &&& post.track_tile_corner_b_l == pre.track_tile_corner_b_l
    &&& post.track_tile_t_junction_normal == pre.track_tile_t_junction_normal
    &&& post.track_tile_t_junction_flipped == pre.track_tile_t_junction_flipped
    &&& post.track_tile_crossing == pre.track_tile_crossing
    &&& post.grass_sprite == pre.grass_sprite
    &&& post.train_sprite == pre.train_sprite
}

/// Relation between the grid before and after the reset pass: the seed
/// cell takes the front marker over fresh track; a guaranteed prefix of
/// the first straight run and a cell inside the right-hand stop band are
/// track; track is only added, and only inside the eligible region; no
/// other cell's occupant changes; non-track cells keep their masks; and
/// every track cell's mask matches its neighbours.
pub open spec fn reset_grid_rel(g0: Grid, g1: Grid) -> bool {
    &&& g1.width == g0.width
    &&& g1.height == g0.height
    &&& g1.cells@.len() == g0.cells@.len()
    &&& g1.cell_at(SEED_X as int, SEED_Y as int).occupant == Occupant::Front
    &&& g1.track_at(SEED_X as int, SEED_Y as int)
    &&& forall|i: int|
        0 <= i < first_run_len(g0, SEED_X as int) ==> #[trigger] g1.track_at(
            SEED_X as int + i,
            SEED_Y as int,
        )
    &&& exists|xx: int, yy: int|
        #[trigger] g1.track_at(xx, yy) && xx + STOP_MARGIN as int >= g1.width
    &&& forall|x: int, y: int|
        g1.track_at(x, y) ==> g0.track_at(x, y) || #[trigger] eligible(g0, x, y)
    &&& forall|x: int, y: int| g0.track_at(x, y) ==> #[trigger] g1.track_at(x, y)
    &&& forall|x: int, y: int|
        g1.track_at(x, y) && !g0.track_at(x, y) ==> #[trigger] crate::track::track_connected(
            g1,
            SEED_X as int,
            SEED_Y as int,
            x,
            y,
        )
    &&& forall|x: int, y: int|
        g0.in_bounds(x, y) && !(x == SEED_X as int && y == SEED_Y as int)
            ==> (#[trigger] g1.cell_at(x, y)).occupant == g0.cell_at(x, y).occupant
    &&& forall|x: int, y: int|
        g0.in_bounds(x, y) && !g1.cell_at(x, y).track ==> (#[trigger] g1.cell_at(x, y)).conn
            == g0.cell_at(x, y).conn
    &&& masks_recorded(g1)
}

/// The grid simulation engine: the double-buffered cell grid, the random
/// generator for track generation, the movement timers, and the sprites
/// the draw pass uses.
pub struct Game {
    pub rng: rand::rngs::StdRng,
    pub initialized: bool,
    pub grid_offset_x: i32,
    pub grid_offset_y: i32,

    pub player_sprite_right: Sprite,
    pub player_sprite_up: Sprite,
    pub player_sprite_down: Sprite,

    pub enemy: Entity,
    pub enemy_sprite: Sprite,

    pub test_tile: Sprite,
    pub track_tile_normal: Sprite,
    pub track_tile_flipped: Sprite,
    pub track_tile_corner_t_r: Sprite,
    pub track_tile_corner_t_l: Sprite,
    pub track_tile_corner_b_r: Sprite,
    pub track_tile_corner_b_l: Sprite,
    pub track_tile_t_junction_normal: Sprite,
    pub track_tile_t_junction_flipped: Sprite,
    pub track_tile_crossing: Sprite,
    pub grass_sprite: Sprite,

    pub grid: Grid,
    pub new_grid: Grid,
    pub time_passed_ms: u64,
    pub move_timer_ms: u64,
    pub move_interval_ms: u64,

    pub last_dir_x: i32,
    pub last_dir_y: i32,
    pub train_test: Vec<Entity>,
    pub train_sprite: Sprite,
}

impl Game {
    /// Both grid buffers are well formed, share their dimensions, leave
    /// room for the seed row, and every sprite is well formed.
    pub open spec fn wf(self) -> bool {
        &&& self.grid.wf()
        &&& self.new_grid.wf()
        &&& self.new_grid.width == self.grid.width
        &&& self.new_grid.height == self.grid.height
        &&& SEED_Y as int + 2 <= self.grid.height
        &&& self.grid.width <= 16384
        &&& self.grid.height <= 16384
        &&& self.player_sprite_right.wf()
        &&& self.player_sprite_up.wf()
        &&& self.player_sprite_down.wf()
        &&& self.enemy_sprite.wf()
        &&& self.test_tile.wf()
        &&& self.track_tile_normal.wf()
        &&& self.track_tile_flipped.wf()
        &&& self.track_tile_corner_t_r.wf()
        &&& self.track_tile_corner_t_l.wf()
        &&& self.track_tile_corner_b_r.wf()
        &&& self.track_tile_corner_b_l.wf()
        &&& self.track_tile_t_junction_normal.wf()
        &&& self.track_tile_t_junction_flipped.wf()
        &&& self.track_tile_crossing.wf()
        &&& self.grass_sprite.wf()
        &&& self.train_sprite.wf()
        &&& fits_cell(self.player_sprite_right)
        &&& fits_cell(self.player_sprite_up)
        &&& fits_cell(self.player_sprite_down)
        &&& fits_cell(self.enemy_sprite)
        &&& fits_cell(self.test_tile)
        &&& fits_cell(self.track_tile_normal)
        &&& fits_cell(self.track_tile_flipped)
        &&& fits_cell(self.track_tile_corner_t_r)
        &&& fits_cell(self.track_tile_corner_t_l)
        &&& fits_cell(self.track_tile_corner_b_r)
        &&& fits_cell(self.track_tile_corner_b_l)
        &&& fits_cell(self.track_tile_t_junction_normal)
        &&& fits_cell(self.track_tile_t_junction_flipped)
        &&& fits_cell(self.track_tile_crossing)
        &&& fits_cell(self.grass_sprite)
        &&& fits_cell(self.train_sprite)
        &&& -1 <= self.last_dir_x <= 1
        &&& -1 <= self.last_dir_y <= 1
        &&& MOVE_INTERVAL_MIN_MS <= self.move_interval_ms <= MOVE_INTERVAL_MAX_MS
        &&& 1 <= self.train_test@.len()
    }

    /// Builds the engine over an empty grid of the given dimensions: cuts
    /// every sprite out of the tile-sheet atlas, seeds the random
    /// generator, and leaves the grid to be populated by the first
    /// update's reset pass.
    pub fn new(atlas: &Bitmap, seed: u64, grid_width: usize, grid_height: usize) -> (r: Game)
        requires
            atlas.wf(),
            atlas.width as int <= 16 * TILESHEET_MAX_X,
            atlas.height as int <= 16 * TILESHEET_MAX_Y,
            1 <= grid_width <= 16384,
            SEED_Y as int + 2 <= grid_height,
            grid_height <= 16384,
        ensures
            r.wf(),
            !r.initialized,
            r.grid.width == grid_width,
            r.grid.height == grid_height,
            forall|x: int, y: int|
                r.grid.in_bounds(x, y) ==> #[trigger] r.grid.cell_at(x, y) == (Cell {
                    track: false,
                    conn: 0,
                    occupant: Occupant::Vacant,
                }),
            r.new_grid.width == grid_width,
            r.new_grid.height == grid_height,
            forall|x: int, y: int|
                r.new_grid.in_bounds(x, y) ==> #[trigger] r.new_grid.cell_at(x, y) == (Cell {
                    track: false,
                    conn: 0,
                    occupant: Occupant::Vacant,
                }),
            r.move_interval_ms == MOVE_INTERVAL_START_MS,
            r.time_passed_ms == 0,
            r.move_timer_ms == 0,
            r.last_dir_x == 1,
            r.last_dir_y == 0,
            r.train_test@.len() == 3,
            atlas_cell_sprite(r.player_sprite_right, *atlas, 11, 20),
            atlas_cell_sprite(r.player_sprite_up, *atlas, 10, 20),
            atlas_cell_sprite(r.player_sprite_down, *atlas, 9, 20),
            atlas_cell_sprite(r.enemy_sprite, *atlas, 26, 0),
            atlas_cell_sprite(r.test_tile, *atlas, 38, 12),
            atlas_cell_sprite(r.track_tile_normal, *atlas, 0, 5),
            atlas_cell_sprite_via(r.track_tile_flipped, *atlas, 0, 5, Transform::RotateQuarter),
            atlas_cell_sprite_via(r.track_tile_corner_t_r, *atlas, 1, 5, Transform::FlipVertical),
            atlas_cell_sprite_via(r.track_tile_corner_t_l, *atlas, 1, 5, Transform::RotateHalf),
            atlas_cell_sprite(r.track_tile_corner_b_r, *atlas, 1, 5),
            atlas_cell_sprite_via(
                r.track_tile_corner_b_l,
                *atlas,
                1,
                5,
                Transform::FlipHorizontal,
            ),
            atlas_cell_sprite(r.track_tile_t_junction_normal, *atlas, 2, 5),
            atlas_cell_sprite_via(
                r.track_tile_t_junction_flipped,
                *atlas,
                2,
                5,
                Transform::RotateQuarter,
            ),
            atlas_cell_sprite(r.track_tile_crossing, *atlas, 3, 5),
            atlas_cell_sprite(r.grass_sprite, *atlas, 5, 0),
            atlas_cell_sprite(r.train_sprite, *atlas, 9, 21),
    {
        proof {
            assert(grid_width * grid_height <= 16384 * 16384) by (nonlinear_arith)
                requires 1 <= grid_width <= 16384, 1 <= grid_height <= 16384;
            assert(atlas.width as int / TILESHEET_MAX_X as int <= 16) by (nonlinear_arith)
                requires atlas.width as int <= 16 * TILESHEET_MAX_X as int;
            assert(atlas.height as int / TILESHEET_MAX_Y as int <= 16) by (nonlinear_arith)
                requires atlas.height as int <= 16 * TILESHEET_MAX_Y as int;
        }
        let track_tile_flipped = {
            let mut sprite = Sprite::from_grid(atlas, 0, 5, TILESHEET_MAX_X, TILESHEET_MAX_Y, Some(2));
            sprite.rotate_quarter();
            sprite
        };
        let track_tile_corner_t_r = {
            let mut sprite = Sprite::from_grid(atlas, 1, 5, TILESHEET_MAX_X, TILESHEET_MAX_Y, Some(2));
            sprite.flip_vertical();
            sprite
        };
        let track_tile_corner_t_l = {
            let mut sprite = Sprite::from_grid(atlas, 1, 5, TILESHEET_MAX_X, TILESHEET_MAX_Y, Some(2));
            sprite.rotate_half();
            sprite
        };
        let track_tile_corner_b_l = {
            let mut sprite = Sprite::from_grid(atlas, 1, 5, TILESHEET_MAX_X, TILESHEET_MAX_Y, Some(2));
            sprite.flip_horizontal();
            sprite
        };
        let track_tile_t_junction_flipped = {
            let mut sprite = Sprite::from_grid(atlas, 2, 5, TILESHEET_MAX_X, TILESHEET_MAX_Y, Some(2));
            sprite.rotate_quarter();
            sprite
        };
        let mut train_test: Vec<Entity> = Vec::new();
        train_test.push(Entity::new(200, 200));
        train_test.push(Entity::new(200, 232));
        train_test.push(Entity::new(200, 264));
        Game {
            rng: rng_from_seed(seed),
            initialized: false,
            grid_offset_x: 112,
            grid_offset_y: 100,
            player_sprite_right: Sprite::from_grid(atlas, 11, 20, TILESHEET_MAX_X, TILESHEET_MAX_Y, Some(2)),
            player_sprite_up: Sprite::from_grid(atlas, 10, 20, TILESHEET_MAX_X, TILESHEET_MAX_Y, Some(2)),
            player_sprite_down: Sprite::from_grid(atlas, 9, 20, TILESHEET_MAX_X, TILESHEET_MAX_Y, Some(2)),
            enemy: Entity::new(50, 50),
            enemy_sprite: Sprite::from_grid(atlas, 26, 0, TILESHEET_MAX_X, TILESHEET_MAX_Y, Some(2)),
            test_tile: Sprite::from_grid(atlas, 38, 12, TILESHEET_MAX_X, TILESHEET_MAX_Y, Some(2)),
            track_tile_normal: Sprite::from_grid(atlas, 0, 5, TILESHEET_MAX_X, TILESHEET_MAX_Y, Some(2)),
            track_tile_flipped,
            track_tile_corner_t_r,
            track_tile_corner_t_l,
            track_tile_corner_b_r: Sprite::from_grid(atlas, 1, 5, TILESHEET_MAX_X, TILESHEET_MAX_Y, Some(2)),
            track_tile_corner_b_l,
            track_tile_t_junction_normal: Sprite::from_grid(atlas, 2, 5, TILESHEET_MAX_X, TILESHEET_MAX_Y, Some(2)),
            track_tile_t_junction_flipped,
            track_tile_crossing: Sprite::from_grid(atlas, 3, 5, TILESHEET_MAX_X, TILESHEET_MAX_Y, Some(2)),
            grass_sprite: Sprite::from_grid(atlas, 5, 0, TILESHEET_MAX_X, TILESHEET_MAX_Y, Some(2)),
            grid: Grid::new(grid_width, grid_height),
            new_grid: Grid::new(grid_width, grid_height),
            time_passed_ms: 0,
            move_timer_ms: 0,
            move_interval_ms: MOVE_INTERVAL_START_MS,
            last_dir_x: 1,
            last_dir_y: 0,
            train_test,
            train_sprite: Sprite::from_grid(atlas, 9, 21, TILESHEET_MAX_X, TILESHEET_MAX_Y, Some(2)),
        }
    }

    /// Seeds the player's front cell, generates the winding track from
    /// the seed cell, and records every track cell's connectivity mask.
    pub fn reset(&mut self)
        requires
            old(self).wf(),
        ensures
            final(self).wf(),
            reset_grid_rel(old(self).grid, final(self).grid),
            same_sprites(*old(self), *final(self)),
            final(self).initialized == old(self).initialized,
            final(self).grid_offset_x == old(self).grid_offset_x,
            final(self).grid_offset_y == old(self).grid_offset_y,
            final(self).time_passed_ms == old(self).time_passed_ms,
            final(self).move_timer_ms == old(self).move_timer_ms,
            final(self).move_interval_ms == old(self).move_interval_ms,
            final(self).last_dir_x == old(self).last_dir_x,
            final(self).last_dir_y == old(self).last_dir_y,
            final(self).train_test == old(self).train_test,
    {
        let seeded = {
            let c = self.grid.cell(SEED_X as usize, SEED_Y as usize);
            Cell { track: c.track, conn: c.conn, occupant: Occupant::Front }
        };
        self.grid.set_cell(SEED_X as usize, SEED_Y as usize, seeded);
        let ghost g_seeded = self.grid;
        gen_track(SEED_X, SEED_Y, &mut self.grid, &mut self.rng, false);
        let ghost g_grown = self.grid;
        evaluate_all_tracks(&mut self.grid);
        proof {
            let o = old(self).grid;
            crate::track::lemma_pass_records(g_grown, self.grid);
            assert forall|x: int, y: int|
                self.grid.track_at(x, y) implies o.track_at(x, y) || #[trigger] eligible(o, x, y)
                by {
                assert(self.grid.cell_at(x, y) == crate::track::eval_cell(g_grown, x, y));
                assert(crate::track::growth_cell_ok(g_seeded, g_grown, x, y));
                if !g_seeded.cell_at(x, y).track {
                    assert(eligible(g_seeded, x, y));
                }
            }
            assert forall|x: int, y: int| o.track_at(x, y) implies #[trigger] self.grid.track_at(
                x,
                y,
            ) by {
                assert(g_seeded.cell_at(x, y).track == o.cell_at(x, y).track);
                assert(crate::track::growth_cell_ok(g_seeded, g_grown, x, y));
                assert(self.grid.cell_at(x, y) == crate::track::eval_cell(g_grown, x, y));
            }
            assert forall|x: int, y: int|
                o.in_bounds(x, y) && !(x == SEED_X as int && y == SEED_Y as int)
                implies (#[trigger] self.grid.cell_at(x, y)).occupant == o.cell_at(x, y).occupant
                by {
                assert(g_seeded.cell_at(x, y) == o.cell_at(x, y));
                assert(crate::track::growth_cell_ok(g_seeded, g_grown, x, y));
                assert(self.grid.cell_at(x, y) == crate::track::eval_cell(g_grown, x, y));
            }
            assert forall|x: int, y: int|
                o.in_bounds(x, y) && !self.grid.cell_at(x, y).track
                implies (#[trigger] self.grid.cell_at(x, y)).conn == o.cell_at(x, y).conn by {
                assert(self.grid.cell_at(x, y) == crate::track::eval_cell(g_grown, x, y));
                assert(crate::track::growth_cell_ok(g_seeded, g_grown, x, y));
                if !(x == SEED_X as int && y == SEED_Y as int) {
                    assert(g_seeded.cell_at(x, y) == o.cell_at(x, y));
                }
            }
            assert(crate::track::growth_cell_ok(g_seeded, g_grown, SEED_X as int, SEED_Y as int));
            assert(self.grid.cell_at(SEED_X as int, SEED_Y as int) == crate::track::eval_cell(
                g_grown,
                SEED_X as int,
                SEED_Y as int,
            ));
            assert forall|i: int| 0 <= i < first_run_len(o, SEED_X as int)
                implies #[trigger] self.grid.track_at(SEED_X as int + i, SEED_Y as int) by {
                assert(g_grown.track_at(SEED_X as int + i, SEED_Y as int));
                assert(self.grid.cell_at(SEED_X as int + i, SEED_Y as int)
                    == crate::track::eval_cell(g_grown, SEED_X as int + i, SEED_Y as int));
            }
            assert forall|p: int, q: int| g_grown.track_at(p, q)
                implies #[trigger] self.grid.track_at(p, q) by {
                assert(self.grid.cell_at(p, q) == crate::track::eval_cell(g_grown, p, q));
            }
            assert forall|a: int, b: int|
                self.grid.track_at(a, b) && !o.track_at(a, b)
                implies #[trigger] crate::track::track_connected(
                    self.grid,
                    SEED_X as int,
                    SEED_Y as int,
                    a,
                    b,
                ) by {
                assert(self.grid.cell_at(a, b) == crate::track::eval_cell(g_grown, a, b));
                if !(a == SEED_X as int && b == SEED_Y as int) {
                    assert(g_seeded.cell_at(a, b) == o.cell_at(a, b));
                }
                assert(!g_seeded.track_at(a, b));
                assert(crate::track::track_connected(g_grown, SEED_X as int, SEED_Y as int, a, b));
                crate::track::lemma_connected_monotone(
                    g_grown,
                    self.grid,
                    SEED_X as int,
                    SEED_Y as int,
                    a,
                    b,
                );
            }
            let (wx, wy) = choose|xx: int, yy: int|
                #[trigger] g_grown.track_at(xx, yy) && xx + STOP_MARGIN as int >= g_grown.width;
            assert(self.grid.cell_at(wx, wy) == crate::track::eval_cell(g_grown, wx, wy));
            assert(self.grid.track_at(wx, wy) && wx + STOP_MARGIN as int >= self.grid.width);
        }
    }
}

/// What one tick leaves in a fading trail marker when movement occurred
/// this tick: the counter drops by one, and a spent counter vacates the
/// cell.  Any other occupant is held.
pub open spec fn decay_occupant(o: Occupant) -> Occupant {
    match o {
        Occupant::Trailing(k) => if k <= 1 {
            Occupant::Vacant
        } else {
            Occupant::Trailing((k - 1) as u8)
        },
        _ => o,
    }
}

/// The cell one tick writes at `(x, y)`: the move's target cell takes the
/// front marker, the vacated cell a full trail marker; every other cell
/// keeps its occupant, decayed when movement occurred this tick.  Track
/// and connectivity are never touched.
pub open spec fn stepped_cell(
    g: Grid,
    x: int,
    y: int,
    moved: bool,
    fx: int,
    fy: int,
    nx: int,
    ny: int,
    decay: bool,
) -> Cell {
    let c = g.cell_at(x, y);
    let occ = if moved && x == nx && y == ny {
        Occupant::Front
    } else if moved && x == fx && y == fy {
        Occupant::Trailing(TRAIL_TICKS)
    } else if decay {
        decay_occupant(c.occupant)
    } else {
        c.occupant
    };
    Cell { track: c.track, conn: c.conn, occupant: occ }
}

/// The first cell index at or after `i` whose occupant is the front
/// marker, in row-major scan order.
pub open spec fn first_front_from(g: Grid, i: int) -> Option<int>
    decreases g.cells@.len() - i,
{
    if i < 0 || i >= g.cells@.len() {
        None
    } else if g.cells@[i].occupant is Front {
        Some(i)
    } else {
        first_front_from(g, i + 1)
    }
}

/// The index that the front scan returns holds the front marker, and no
/// earlier index from the scan's start does.
pub proof fn lemma_first_front_is_front(g: Grid, i: int, j: int)
    requires
        first_front_from(g, i) == Some(j),
        0 <= i,
    ensures
        i <= j < g.cells@.len(),
        g.cells@[j].occupant is Front,
    decreases g.cells@.len() - i,
{
    if i >= g.cells@.len() {
    } else if g.cells@[i].occupant is Front {
    } else {
        lemma_first_front_is_front(g, i + 1, j);
    }
}

/// Where the tick steers a requested move: the target cell in the
/// requested direction when it is track; otherwise, for rightward travel,
/// the cell below, then the cell above; otherwise the cell to the right;
/// `None` when no probed cell is track.
pub open spec fn resolve_spec(
    g: Grid,
    fx: int,
    fy: int,
    dx: int,
    dy: int,
    last_dir_x: int,
) -> Option<(int, int, int, int)> {
    if g.track_at(fx + dx, fy + dy) {
        Some((fx + dx, fy + dy, dx, dy))
    } else if last_dir_x > 0 {
        if g.track_at(fx, fy + 1) {
            Some((fx, fy + 1, 0, 1))
        } else if g.track_at(fx, fy - 1) {
            Some((fx, fy - 1, 0, -1))
        } else {
            None
        }
    } else {
        if g.track_at(fx + 1, fy) {
            Some((fx + 1, fy, 1, 0))
        } else {
            None
        }
    }
}

/// The direction the tick ends up applying: the steered direction when a
/// move resolves, else the requested one.
#[verifier::opaque]
pub open spec fn applied_dir(g0: Grid, dx: int, dy: int, last_dir_x: int) -> (int, int) {
    match first_front_from(g0, 0) {
        Some(fi) => {
            let fx = fi % g0.width as int;
            let fy = fi / g0.width as int;
            match resolve_spec(g0, fx, fy, dx, dy, last_dir_x) {
                Some(mv) => (mv.2, mv.3),
                None => (dx, dy),
            }
        },
        None => (dx, dy),
    }
}

/// Relation between the grid before and after one tick with the given
/// requested direction: a zero direction leaves the grid untouched; a
/// nonzero one rewrites every cell by `stepped_cell`, with the move taken
/// from the steering rules when the scan finds a front cell and the
/// steering resolves.
#[verifier::opaque]
pub open spec fn tick_rel(g0: Grid, g1: Grid, dx: int, dy: int, last_dir_x: int) -> bool {
    &&& g1.width == g0.width
    &&& g1.height == g0.height
    &&& if dx == 0 && dy == 0 {
        g1.cells@ == g0.cells@
    } else {
        match first_front_from(g0, 0) {
            Some(fi) => {
                let fx = fi % g0.width as int;
                let fy = fi / g0.width as int;
                match resolve_spec(g0, fx, fy, dx, dy, last_dir_x) {
                    Some(mv) => forall|x: int, y: int|
                        g0.in_bounds(x, y) ==> #[trigger] g1.cell_at(x, y) == stepped_cell(
                            g0,
                            x,
                            y,
                            true,
                            fx,
                            fy,
                            mv.0,
                            mv.1,
                            true,
                        ),
                    None => forall|x: int, y: int|
                        g0.in_bounds(x, y) ==> #[trigger] g1.cell_at(x, y) == stepped_cell(
                            g0,
                            x,
                            y,
                            false,
                            0,
                            0,
                            0,
                            0,
                            true,
                        ),
                }
            },
            None => forall|x: int, y: int|
                g0.in_bounds(x, y) ==> #[trigger] g1.cell_at(x, y) == stepped_cell(
                    g0,
                    x,
                    y,
                    false,
                    0,
                    0,
                    0,
                    0,
                    true,
                ),
        }
    }
}

/// Scans the grid in row-major order for the front-occupant cell.
pub fn find_front(grid: &Grid) -> (r: Option<(usize, usize)>)
    requires
        grid.wf(),
    ensures
        match r {
            Some(p) => {
                &&& p.0 < grid.width
                &&& p.1 < grid.height
                &&& first_front_from(*grid, 0) == Some(
                    cell_index(p.0 as int, p.1 as int, grid.width as int),
                )
                &&& grid.cell_at(p.0 as int, p.1 as int).occupant == Occupant::Front
            },
            None => first_front_from(*grid, 0) is None,
        },
{
    let total: usize = grid.cells.len();
    let mut i: usize = 0;
    while i < total
        invariant
            grid.wf(),
            total == grid.cells@.len(),
            i <= total,
            first_front_from(*grid, 0) == first_front_from(*grid, i as int),
        decreases total - i,
    {
        let is_front = match grid.cells[i].occupant {
            Occupant::Front => true,
            _ => false,
        };
        if is_front {
            proof {
                lemma_cell_index_split(i as int, grid.width as int, grid.height as int);
            }
            let x: usize = i % grid.width;
            let y: usize = i / grid.width;
            return Some((x, y));
        }
        proof {
            assert(first_front_from(*grid, i as int) == first_front_from(*grid, i as int + 1));
        }
        i = i + 1;
    }
    None
}

/// Tests whether possibly out-of-range signed coordinates land on an
/// in-bounds track cell; out-of-range coordinates are no track, never an
/// aliased read.
fn is_track_signed(grid: &Grid, x: i64, y: i64) -> (r: bool)
    requires
        grid.wf(),
        grid.width <= 16384,
        grid.height <= 16384,
    ensures
        r == grid.track_at(x as int, y as int),
{
    if x >= 0 && y >= 0 && x < grid.width as i64 && y < grid.height as i64 {
        grid.cell(x as usize, y as usize).track
    } else {
        false
    }
}

/// Applies the steering rules to a requested move from the front cell.
pub fn resolve_move(
    grid: &Grid,
    fx: usize,
    fy: usize,
    dir_x: i32,
    dir_y: i32,
    last_dir_x: i32,
) -> (r: Option<(usize, usize, i32, i32)>)
    requires
        grid.wf(),
        grid.width <= 16384,
        grid.height <= 16384,
        fx < grid.width,
        fy < grid.height,
        -1 <= dir_x <= 1,
        -1 <= dir_y <= 1,
    ensures
        ({
            let s = resolve_spec(*grid, fx as int, fy as int, dir_x as int, dir_y as int,
                last_dir_x as int);
            match r {
                Some(t) => s matches Some(sv) && t.0 == sv.0 && t.1 == sv.1 && t.2 == sv.2
                    && t.3 == sv.3,
                None => s is None,
            }
        }),
{
    let tx: i64 = fx as i64 + dir_x as i64;
    let ty: i64 = fy as i64 + dir_y as i64;
    if is_track_signed(grid, tx, ty) {
        Some((tx as usize, ty as usize, dir_x, dir_y))
    } else if last_dir_x > 0 {
        if fy + 1 < grid.height && grid.cell(fx, fy + 1).track {
            Some((fx, fy + 1, 0, 1))
        } else if fy > 0 && grid.cell(fx, fy - 1).track {
            Some((fx, fy - 1, 0, -1))
        } else {
            None
        }
    } else {
        if fx + 1 < grid.width && grid.cell(fx + 1, fy).track {
            Some((fx + 1, fy, 1, 0))
        } else {
            None
        }
    }
}

/// Writes one tick's worth of cells into the scratch grid: every cell of
/// the source rewritten by `stepped_cell`.
pub fn step_cells(
    src: &Grid,
    dst: &mut Grid,
    moved: bool,
    fx: usize,
    fy: usize,
    nx: usize,
    ny: usize,
    decay: bool,
)
    requires
        src.wf(),
        old(dst).wf(),
        old(dst).width == src.width,
        old(dst).height == src.height,
    ensures
        final(dst).wf(),
        final(dst).width == src.width,
        final(dst).height == src.height,
        forall|x: int, y: int|
            src.in_bounds(x, y) ==> #[trigger] final(dst).cell_at(x, y) == stepped_cell(
                *src,
                x,
                y,
                moved,
                fx as int,
                fy as int,
                nx as int,
                ny as int,
                decay,
            ),
{
    let mut y: usize = 0;
    while y < src.height
        invariant
            src.wf(),
            dst.wf(),
            dst.width == src.width,
            dst.height == src.height,
            y <= src.height,
            forall|xi: int, yi: int|
                src.in_bounds(xi, yi) && yi < y ==> #[trigger] dst.cell_at(xi, yi)
                    == stepped_cell(*src, xi, yi, moved, fx as int, fy as int, nx as int,
                    ny as int, decay),
        decreases src.height - y,
    {
        let mut x: usize = 0;
        while x < src.width
            invariant
                src.wf(),
                dst.wf(),
                dst.width == src.width,
                dst.height == src.height,
                y < src.height,
                x <= src.width,
                forall|xi: int, yi: int|
                    src.in_bounds(xi, yi) && (yi < y || (yi == y && xi < x))
                        ==> #[trigger] dst.cell_at(xi, yi) == stepped_cell(*src, xi, yi, moved,
                        fx as int, fy as int, nx as int, ny as int, decay),
            decreases src.width - x,
        {
            let c = src.cell(x, y);
            let occ = if moved && x == nx && y == ny {
                Occupant::Front
            } else if moved && x == fx && y == fy {
                Occupant::Trailing(TRAIL_TICKS)
            } else if decay {
                match c.occupant {
                    Occupant::Trailing(k) => if k <= 1 {
                        Occupant::Vacant
                    } else {
                        Occupant::Trailing(k - 1)
                    },
                    other => other,
                }
            } else {
                c.occupant
            };
            dst.set_cell(x, y, Cell { track: c.track, conn: c.conn, occupant: occ });
            x = x + 1;
        }
        y = y + 1;
    }
}

impl Game {
    /// Advances the grid one tick for the requested direction: a zero
    /// direction changes nothing; otherwise the front cell's move is
    /// steered onto track where possible, the vacated cell starts a full
    /// trail counter, every other trail counter decays, and the double
    /// buffer is swapped.  The last travel direction follows the applied
    /// move.
    pub fn tick(&mut self, dir_x: i32, dir_y: i32)
        requires
            old(self).wf(),
            -1 <= dir_x <= 1,
            -1 <= dir_y <= 1,
        ensures
            final(self).wf(),
            same_sprites(*old(self), *final(self)),
            tick_rel(
                old(self).grid,
                final(self).grid,
                dir_x as int,
                dir_y as int,
                old(self).last_dir_x as int,
            ),
            final(self).grid.width == old(self).grid.width,
            final(self).grid.height == old(self).grid.height,
            if dir_x == 0 && dir_y == 0 {
                final(self).last_dir_x == old(self).last_dir_x && final(self).last_dir_y == old(
                    self,
                ).last_dir_y
            } else {
                (final(self).last_dir_x as int, final(self).last_dir_y as int) == applied_dir(
                    old(self).grid,
                    dir_x as int,
                    dir_y as int,
                    old(self).last_dir_x as int,
                )
            },
            final(self).initialized == old(self).initialized,
            final(self).grid_offset_x == old(self).grid_offset_x,
            final(self).grid_offset_y == old(self).grid_offset_y,
            final(self).time_passed_ms == old(self).time_passed_ms,
            final(self).move_timer_ms == old(self).move_timer_ms,
            final(self).move_interval_ms == old(self).move_interval_ms,
            final(self).train_test == old(self).train_test,
    {
        proof {
            reveal(tick_rel);
            reveal(applied_dir);
        }
        if dir_x == 0 && dir_y == 0 {
            return ;
        }
        let front = find_front(&self.grid);
        match front {
            None => {
                step_cells(&self.grid, &mut self.new_grid, false, 0, 0, 0, 0, true);
                core::mem::swap(&mut self.grid, &mut self.new_grid);
                self.last_dir_x = dir_x;
                self.last_dir_y = dir_y;
            },
            Some((fx, fy)) => {
                let mv = resolve_move(&self.grid, fx, fy, dir_x, dir_y, self.last_dir_x);
                proof {
                    let w = self.grid.width as int;
                    let h = self.grid.height as int;
                    let fi = cell_index(fx as int, fy as int, w);
                    crate::grid::lemma_cell_index_bound(fx as int, fy as int, w, h);
                    lemma_cell_index_split(fi, w, h);
                    crate::grid::lemma_cell_index_injective(
                        fi % w,
                        fi / w,
                        fx as int,
                        fy as int,
                        w,
                    );
                }
                match mv {
                    Some((nx, ny, adx, ady)) => {
                        step_cells(&self.grid, &mut self.new_grid, true, fx, fy, nx, ny, true);
                        core::mem::swap(&mut self.grid, &mut self.new_grid);
                        self.last_dir_x = adx;
                        self.last_dir_y = ady;
                    },
                    None => {
                        step_cells(&self.grid, &mut self.new_grid, false, 0, 0, 0, 0, true);
                        core::mem::swap(&mut self.grid, &mut self.new_grid);
                        self.last_dir_x = dir_x;
                        self.last_dir_y = dir_y;
                    },
                }
            },
        }
    }
}

/// Law: a tick with a zero movement direction leaves every cell of the
/// grid — the front-occupant cell in particular — exactly as it was.
pub proof fn lemma_tick_zero_dir(g0: Grid, g1: Grid, last_dir_x: int)
    requires
        tick_rel(g0, g1, 0, 0, last_dir_x),
    ensures
        g1.cells@ == g0.cells@,
{
    reveal(tick_rel);
}

/// Law: when a tick applies a nonzero direction, every trail marker's
/// counter drops by exactly one and a spent counter vacates its cell;
/// the only other thing such a cell can become is the move's new front.
pub proof fn lemma_tick_trailing_decay(
    g0: Grid,
    g1: Grid,
    dx: int,
    dy: int,
    last_dir_x: int,
    x: int,
    y: int,
    k: u8,
)
    requires
        g0.wf(),
        tick_rel(g0, g1, dx, dy, last_dir_x),
        !(dx == 0 && dy == 0),
        g0.in_bounds(x, y),
        g0.cell_at(x, y).occupant == Occupant::Trailing(k),
    ensures
        g1.cell_at(x, y).occupant == Occupant::Front || g1.cell_at(x, y).occupant
            == decay_occupant(Occupant::Trailing(k)),
{
    reveal(tick_rel);
    let w = g0.width as int;
    let h = g0.height as int;
    match first_front_from(g0, 0) {
        Some(fi) => {
            lemma_first_front_is_front(g0, 0, fi);
            lemma_cell_index_split(fi, w, h);
            let fx = fi % w;
            let fy = fi / w;
            assert(g0.cell_at(fx, fy).occupant is Front);
            match resolve_spec(g0, fx, fy, dx, dy, last_dir_x) {
                Some(mv) => {
                    assert(g1.cell_at(x, y) == stepped_cell(g0, x, y, true, fx, fy, mv.0, mv.1, true));
                    assert(!(x == fx && y == fy));
                },
                None => {
                    assert(g1.cell_at(x, y) == stepped_cell(g0, x, y, false, 0, 0, 0, 0, true));
                },
            }
        },
        None => {
            assert(g1.cell_at(x, y) == stepped_cell(g0, x, y, false, 0, 0, 0, 0, true));
        },
    }
}

/// Law: for a nonzero direction whose target cell is track, one tick
/// moves the front marker to the target and turns the vacated cell into
/// a trail marker with the full counter.  Outside those two cells no
/// occupancy marker appears or disappears, provided no trail counter is
/// about to expire; and when the front was unique before, it is unique
/// at the target afterwards.
pub proof fn lemma_tick_move(
    g0: Grid,
    g1: Grid,
    dx: int,
    dy: int,
    last_dir_x: int,
    fx: int,
    fy: int,
)
    requires
        g0.wf(),
        tick_rel(g0, g1, dx, dy, last_dir_x),
        !(dx == 0 && dy == 0),
        g0.in_bounds(fx, fy),
        first_front_from(g0, 0) == Some(cell_index(fx, fy, g0.width as int)),
        g0.track_at(fx + dx, fy + dy),
        forall|x: int, y: int|
            g0.in_bounds(x, y) && !(x == fx && y == fy) ==> (#[trigger] g0.cell_at(x, y)).occupant
                != Occupant::Front,
    ensures
        g1.cell_at(fx + dx, fy + dy).occupant == Occupant::Front,
        g1.cell_at(fx, fy).occupant == Occupant::Trailing(TRAIL_TICKS),
        forall|x: int, y: int|
            g0.in_bounds(x, y) && !(x == fx && y == fy) && !(x == fx + dx && y == fy + dy) && (
            (#[trigger] g0.cell_at(x, y)).occupant matches Occupant::Trailing(k) ==> k >= 2)
                ==> ((g1.cell_at(x, y).occupant is Vacant) == (g0.cell_at(x, y).occupant
                is Vacant)),
        forall|x: int, y: int|
            g0.in_bounds(x, y) && !(x == fx + dx && y == fy + dy)
                ==> (#[trigger] g1.cell_at(x, y)).occupant != Occupant::Front,
{
    reveal(tick_rel);
    let w = g0.width as int;
    let h = g0.height as int;
    let fi = cell_index(fx, fy, w);
    crate::grid::lemma_cell_index_bound(fx, fy, w, h);
    lemma_cell_index_split(fi, w, h);
    crate::grid::lemma_cell_index_injective(fi % w, fi / w, fx, fy, w);
    let mv = resolve_spec(g0, fi % w, fi / w, dx, dy, last_dir_x);
    assert(mv == Some((fx + dx, fy + dy, dx, dy)));
    assert(g1.cell_at(fx + dx, fy + dy) == stepped_cell(g0, fx + dx, fy + dy, true, fx, fy,
        fx + dx, fy + dy, true));
    assert(g1.cell_at(fx, fy) == stepped_cell(g0, fx, fy, true, fx, fy, fx + dx, fy + dy, true));
    assert(!(fx + dx == fx && fy + dy == fy));
    assert forall|x: int, y: int|
        g0.in_bounds(x, y) && !(x == fx && y == fy) && !(x == fx + dx && y == fy + dy) && (
        (#[trigger] g0.cell_at(x, y)).occupant matches Occupant::Trailing(k) ==> k >= 2)
        implies ((g1.cell_at(x, y).occupant is Vacant) == (g0.cell_at(x, y).occupant
        is Vacant)) by {
        assert(g1.cell_at(x, y) == stepped_cell(g0, x, y, true, fx, fy, fx + dx, fy + dy, true));
    }
    assert forall|x: int, y: int| g0.in_bounds(x, y) && !(x == fx + dx && y == fy + dy)
        implies (#[trigger] g1.cell_at(x, y)).occupant != Occupant::Front by {
        assert(g1.cell_at(x, y) == stepped_cell(g0, x, y, true, fx, fy, fx + dx, fy + dy, true));
        if !(x == fx && y == fy) {
            assert(g0.cell_at(x, y).occupant != Occupant::Front);
        }
    }
}

/// The cell the front marker occupies after a tick that applies the
/// requested direction: the steered move's target when one resolves, the
/// unchanged front cell otherwise.
pub open spec fn next_front_pos(
    g: Grid,
    fx: int,
    fy: int,
    dx: int,
    dy: int,
    last_dir_x: int,
) -> (int, int) {
    match resolve_spec(g, fx, fy, dx, dy, last_dir_x) {
        Some(mv) => (mv.0, mv.1),
        None => (fx, fy),
    }
}

/// Whether the grid holds exactly one front marker, at `(fx, fy)`, on a
/// track cell that the row-major scan reports first.
pub open spec fn unique_front_on_track(g: Grid, fx: int, fy: int) -> bool {
    &&& g.in_bounds(fx, fy)
    &&& g.cell_at(fx, fy).occupant == Occupant::Front
    &&& first_front_from(g, 0) == Some(cell_index(fx, fy, g.width as int))
    &&& forall|x: int, y: int|
        g.in_bounds(x, y) && !(x == fx && y == fy) ==> (#[trigger] g.cell_at(x, y)).occupant
            != Occupant::Front
    &&& g.track_at(fx, fy)
}

/// A grid whose only front marker sits at `(fx, fy)` reports that cell
/// first from any scan index at or before it.
proof fn lemma_first_front_of_unique(g: Grid, fx: int, fy: int, k: int)
    requires
        g.wf(),
        g.in_bounds(fx, fy),
        g.cell_at(fx, fy).occupant == Occupant::Front,
        forall|x: int, y: int|
            g.in_bounds(x, y) && !(x == fx && y == fy) ==> (#[trigger] g.cell_at(x, y)).occupant
                != Occupant::Front,
        0 <= k <= cell_index(fx, fy, g.width as int),
    ensures
        first_front_from(g, k) == Some(cell_index(fx, fy, g.width as int)),
    decreases cell_index(fx, fy, g.width as int) - k,
{
    let w = g.width as int;
    let h = g.height as int;
    let ci = cell_index(fx, fy, w);
    crate::grid::lemma_cell_index_bound(fx, fy, w, h);
    if k == ci {
        assert(g.cells@[ci].occupant is Front);
    } else {
        lemma_cell_index_split(k, w, h);
        let kx = k % w;
        let ky = k / w;
        if kx == fx && ky == fy {
            assert(false);
        }
        assert(g.cell_at(kx, ky).occupant != Occupant::Front);
        assert(!(g.cells@[k].occupant is Front));
        lemma_first_front_of_unique(g, fx, fy, k + 1);
    }
}

/// Law (one tick of the guided run): when the grid holds a unique front
/// on track and a tick applies a unit direction, the front stays unique
/// and on track at the position the steering rules give, and for a
/// rightward request the front's column never decreases.
pub proof fn lemma_tick_front_step(
    g0: Grid,
    g1: Grid,
    dx: int,
    dy: int,
    last_dir_x: int,
    fx: int,
    fy: int,
)
    requires
        g0.wf(),
        g1.wf(),
        tick_rel(g0, g1, dx, dy, last_dir_x),
        !(dx == 0 && dy == 0),
        unique_front_on_track(g0, fx, fy),
    ensures
        unique_front_on_track(
            g1,
            next_front_pos(g0, fx, fy, dx, dy, last_dir_x).0,
            next_front_pos(g0, fx, fy, dx, dy, last_dir_x).1,
        ),
        dx >= 0 ==> next_front_pos(g0, fx, fy, dx, dy, last_dir_x).0 >= fx,
{
    reveal(tick_rel);
    let w = g0.width as int;
    let h = g0.height as int;
    let fi = cell_index(fx, fy, w);
    crate::grid::lemma_cell_index_bound(fx, fy, w, h);
    lemma_cell_index_split(fi, w, h);
    crate::grid::lemma_cell_index_injective(fi % w, fi / w, fx, fy, w);
    let nfp = next_front_pos(g0, fx, fy, dx, dy, last_dir_x);
    let nx = nfp.0;
    let ny = nfp.1;
    match resolve_spec(g0, fx, fy, dx, dy, last_dir_x) {
        Some(mv) => {
            assert(g0.track_at(nx, ny));
            assert(!(nx == fx && ny == fy));
            assert forall|x: int, y: int| g0.in_bounds(x, y)
                implies #[trigger] g1.cell_at(x, y) == stepped_cell(g0, x, y, true, fx, fy, nx,
                ny, true) by {}
            assert(g1.cell_at(nx, ny).occupant == Occupant::Front);
            assert(g1.track_at(nx, ny));
            assert forall|x: int, y: int|
                g1.in_bounds(x, y) && !(x == nx && y == ny)
                implies (#[trigger] g1.cell_at(x, y)).occupant != Occupant::Front by {
                assert(g1.cell_at(x, y) == stepped_cell(g0, x, y, true, fx, fy, nx, ny, true));
                if !(x == fx && y == fy) {
                    assert(g0.cell_at(x, y).occupant != Occupant::Front);
                }
            }
            lemma_first_front_of_unique(g1, nx, ny, 0);
        },
        None => {
            assert(nx == fx && ny == fy);
            assert forall|x: int, y: int| g0.in_bounds(x, y)
                implies #[trigger] g1.cell_at(x, y) == stepped_cell(g0, x, y, false, 0, 0, 0, 0,
                true) by {}
            assert(g1.cell_at(fx, fy).occupant == Occupant::Front);
            assert(g1.track_at(fx, fy));
            assert forall|x: int, y: int|
                g1.in_bounds(x, y) && !(x == fx && y == fy)
                implies (#[trigger] g1.cell_at(x, y)).occupant != Occupant::Front by {
                assert(g1.cell_at(x, y) == stepped_cell(g0, x, y, false, 0, 0, 0, 0, true));
                assert(g0.cell_at(x, y).occupant != Occupant::Front);
            }
            lemma_first_front_of_unique(g1, fx, fy, 0);
        },
    }
}

/// Law (the guided run): over any chain of ticks that each request the
/// rightward unit direction, the unique front marker stays on track at
/// every step, and its column never decreases over the whole run; the
/// returned pair is the cell where the run leaves it.
pub proof fn lemma_right_run_front_monotone(
    gs: Seq<Grid>,
    lds: Seq<int>,
    fx0: int,
    fy0: int,
) -> (r: (int, int))
    requires
        gs.len() >= 1,
        lds.len() == gs.len() - 1,
        forall|i: int| 0 <= i < gs.len() ==> (#[trigger] gs[i]).wf(),
        unique_front_on_track(gs[0], fx0, fy0),
        forall|i: int| 0 <= i < lds.len() ==> #[trigger] tick_rel(gs[i], gs[i + 1], 1, 0, lds[i]),
    ensures
        unique_front_on_track(gs[gs.len() - 1], r.0, r.1),
        r.0 >= fx0,
    decreases gs.len(),
{
    if gs.len() == 1 {
        (fx0, fy0)
    } else {
        assert(tick_rel(gs[0], gs[1], 1, 0, lds[0]));
        lemma_tick_front_step(gs[0], gs[1], 1, 0, lds[0], fx0, fy0);
        let n = next_front_pos(gs[0], fx0, fy0, 1, 0, lds[0]);
        let sub = gs.subrange(1, gs.len() as int);
        let subl = lds.subrange(1, lds.len() as int);
        assert forall|i: int| 0 <= i < sub.len() implies (#[trigger] sub[i]).wf() by {
            let j = i + 1;
            assert(gs[j].wf());
        }
        assert forall|i: int| 0 <= i < subl.len() implies #[trigger] tick_rel(
            sub[i],
            sub[i + 1],
            1,
            0,
            subl[i],
        ) by {
            let j = i + 1;
            assert(tick_rel(gs[j], gs[j + 1], 1, 0, lds[j]));
            assert(sub[i] == gs[j]);
            assert(sub[i + 1] == gs[j + 1]);
            assert(subl[i] == lds[j]);
        }
        let r2 = lemma_right_run_front_monotone(sub, subl, n.0, n.1);
        assert(sub[sub.len() - 1] == gs[gs.len() - 1]);
        r2
    }
}

/// `v` clamped into the signed 64-bit range.
pub open spec fn sat_i64s(v: int) -> int {
    if v > i64::MAX {
        i64::MAX as int
    } else if v < i64::MIN {
        i64::MIN as int
    } else {
        v
    }
}

/// `v` clamped into the signed 32-bit range.
pub open spec fn sat_i32s(v: int) -> int {
    if v > i32::MAX {
        i32::MAX as int
    } else if v < i32::MIN {
        i32::MIN as int
    } else {
        v
    }
}

/// A nonnegative `v` clamped into the unsigned 64-bit range.
pub open spec fn sat_u64s(v: int) -> int {
    if v > u64::MAX {
        u64::MAX as int
    } else {
        v
    }
}

/// Adds two signed 64-bit values, clamping at the numeric limits.
fn sat_add_i64(a: i64, b: i64) -> (r: i64)
    ensures
        r as int == sat_i64s(a + b),
{
    let s: i128 = a as i128 + b as i128;
    if s > i64::MAX as i128 {
        i64::MAX
    } else if s < i64::MIN as i128 {
        i64::MIN
    } else {
        s as i64
    }
}

/// Adds two signed 32-bit values, clamping at the numeric limits.
fn sat_add_i32(a: i32, b: i32) -> (r: i32)
    ensures
        r as int == sat_i32s(a + b),
{
    let s: i64 = a as i64 + b as i64;
    if s > i32::MAX as i64 {
        i32::MAX
    } else if s < i32::MIN as i64 {
        i32::MIN
    } else {
        s as i32
    }
}

/// Adds two unsigned 64-bit values, clamping at the numeric limit.
fn sat_add_u64(a: u64, b: u64) -> (r: u64)
    ensures
        r as int == sat_u64s(a + b),
{
    if a > u64::MAX - b {
        u64::MAX
    } else {
        a + b
    }
}

/// Relation between the train before and after one advance: the head
/// takes the given velocity and moves by it; every following cart moves
/// by, and takes over, the velocity its predecessor held when the tick
/// began — so cart 1 follows the head's previous-tick velocity, a
/// one-tick-delayed follow chain.
pub open spec fn train_advanced(t0: Seq<Entity>, t1: Seq<Entity>, hvx: int, hvy: int) -> bool {
    &&& t1.len() == t0.len()
    &&& (t0.len() >= 1 ==> {
        &&& t1[0].vel_x as int == hvx
        &&& t1[0].vel_y as int == hvy
        &&& t1[0].pos_x as int == sat_i64s(t0[0].pos_x + hvx)
        &&& t1[0].pos_y as int == sat_i64s(t0[0].pos_y + hvy)
    })
    &&& forall|i: int|
        1 <= i < t0.len() ==> {
            &&& (#[trigger] t1[i]).vel_x == t0[i - 1].vel_x
            &&& t1[i].vel_y == t0[i - 1].vel_y
            &&& t1[i].pos_x as int == sat_i64s(t0[i].pos_x + t0[i - 1].vel_x)
            &&& t1[i].pos_y as int == sat_i64s(t0[i].pos_y + t0[i - 1].vel_y)
        }
}

/// Advances the train one tick as `train_advanced` describes: the head's
/// velocity becomes `(head_vx, head_vy)` only as part of the advance, so
/// the carts still read the velocities held when the tick began.
pub fn advance_train(train: &mut Vec<Entity>, head_vx: i64, head_vy: i64)
    requires
        old(train)@.len() >= 1,
    ensures
        train_advanced(old(train)@, final(train)@, head_vx as int, head_vy as int),
{
    let n: usize = train.len();
    let head = train[0];
    train.set(
        0,
        Entity {
            pos_x: sat_add_i64(head.pos_x, head_vx),
            pos_y: sat_add_i64(head.pos_y, head_vy),
            vel_x: head_vx,
            vel_y: head_vy,
        },
    );
    let mut prev_vx: i64 = head.vel_x;
    let mut prev_vy: i64 = head.vel_y;
    let mut i: usize = 1;
    while i < n
        invariant
            n == train@.len(),
            n == old(train)@.len(),
            1 <= i <= n,
            prev_vx == old(train)@[i - 1].vel_x,
            prev_vy == old(train)@[i - 1].vel_y,
            train@[0].vel_x == head_vx,
            train@[0].vel_y == head_vy,
            train@[0].pos_x as int == sat_i64s(old(train)@[0].pos_x + head_vx),
            train@[0].pos_y as int == sat_i64s(old(train)@[0].pos_y + head_vy),
            forall|j: int| i <= j < n ==> train@[j] == old(train)@[j],
            forall|j: int|
                1 <= j < i ==> {
                    &&& (#[trigger] train@[j]).vel_x == old(train)@[j - 1].vel_x
                    &&& train@[j].vel_y == old(train)@[j - 1].vel_y
                    &&& train@[j].pos_x as int == sat_i64s(
                        old(train)@[j].pos_x + old(train)@[j - 1].vel_x,
                    )
                    &&& train@[j].pos_y as int == sat_i64s(
                        old(train)@[j].pos_y + old(train)@[j - 1].vel_y,
                    )
                },
        decreases n - i,
    {
        let c = train[i];
        train.set(
            i,
            Entity {
                pos_x: sat_add_i64(c.pos_x, prev_vx),
                pos_y: sat_add_i64(c.pos_y, prev_vy),
                vel_x: prev_vx,
                vel_y: prev_vy,
            },
        );
        prev_vx = c.vel_x;
        prev_vy = c.vel_y;
        i = i + 1;
    }
}

/// The automatic-move interval after one frame's key presses: the
/// slowing key raises it one step up to the cap, the quickening key then
/// lowers it one step down to the floor.
pub open spec fn adjusted_interval(iv: int, inp: Input) -> int {
    let a = if inp.slower_pressed {
        if iv + MOVE_INTERVAL_STEP_MS > MOVE_INTERVAL_MAX_MS {
            MOVE_INTERVAL_MAX_MS as int
        } else {
            iv + MOVE_INTERVAL_STEP_MS
        }
    } else {
        iv
    };
    if inp.faster_pressed {
        if a < MOVE_INTERVAL_MIN_MS + MOVE_INTERVAL_STEP_MS {
            MOVE_INTERVAL_MIN_MS as int
        } else {
            a - MOVE_INTERVAL_STEP_MS
        }
    } else {
        a
    }
}

/// The horizontal view offset after one frame's scroll keys.
pub open spec fn scrolled_x(off: int, inp: Input) -> int {
    let a = if inp.scroll_left {
        sat_i32s(off + CELL_SIZE)
    } else {
        off
    };
    if inp.scroll_right {
        sat_i32s(a - CELL_SIZE)
    } else {
        a
    }
}

/// The vertical view offset after one frame's scroll keys.
pub open spec fn scrolled_y(off: int, inp: Input) -> int {
    let a = if inp.scroll_up {
        sat_i32s(off + CELL_SIZE)
    } else {
        off
    };
    if inp.scroll_down {
        sat_i32s(a - CELL_SIZE)
    } else {
        a
    }
}

/// Whether this frame's accepted move pulls the view one cell left: the
/// front cell has scrolled past the middle of the frame.
#[verifier::opaque]
pub open spec fn camera_fires(g: Grid, dx: int, dy: int, last_dir_x: int, off_x: int) -> bool {
    &&& !(dx == 0 && dy == 0)
    &&& match first_front_from(g, 0) {
        Some(fi) => {
            &&& resolve_spec(
                g,
                fi % g.width as int,
                fi / g.width as int,
                dx,
                dy,
                last_dir_x,
            ) is Some
            &&& off_x + (fi % g.width as int) * CELL_SIZE > WIDTH as int / 2
        },
        None => false,
    }
}

/// What one frame does once the grid the tick runs on is fixed: the tick
/// relation on the grid, the camera pull on the horizontal view offset,
/// the last travel direction following the applied move, and the train
/// advanced with the head steered by the applied move.
pub open spec fn frame_step_rel(g0: Grid, pre: Game, post: Game, dx: int, dy: int, ax: int) -> bool {
    &&& tick_rel(g0, post.grid, dx, dy, pre.last_dir_x as int)
    &&& post.grid_offset_x as int == if camera_fires(g0, dx, dy, pre.last_dir_x as int, ax) {
        sat_i32s(ax - CELL_SIZE)
    } else {
        ax
    }
    &&& (!(dx == 0 && dy == 0) ==> (post.last_dir_x as int, post.last_dir_y as int)
        == applied_dir(g0, dx, dy, pre.last_dir_x as int))
    &&& ((dx == 0 && dy == 0) ==> post.last_dir_x == pre.last_dir_x && post.last_dir_y
        == pre.last_dir_y)
    &&& train_advanced(
        pre.train_test@,
        post.train_test@,
        if !(dx == 0 && dy == 0) {
            applied_dir(g0, dx, dy, pre.last_dir_x as int).0
        } else {
            pre.train_test@[0].vel_x as int
        },
        if !(dx == 0 && dy == 0) {
            applied_dir(g0, dx, dy, pre.last_dir_x as int).1
        } else {
            pre.train_test@[0].vel_y as int
        },
    )
}

/// Tint written over track tiles.
pub const CELL_TRACK_COLOR: [u8; 4] = [0x5e, 0x50, 0x2d, 0xff];
/// Tint written over the player and its trail.
pub const CELL_PLAYER_COLOR: [u8; 4] = [0x6b, 0xa0, 0x1a, 0xff];
/// Tint written over hostile actors.
pub const ENEMY_COLOR: [u8; 4] = [0x69, 0x11, 0x19, 0xff];
/// Color the frame is cleared to before a draw pass.
pub const BACKGROUND_COLOR: [u8; 4] = [0x7f, 0x6f, 0x0a, 0xff];
/// Tint written over empty grass cells.
pub const GRASS_COLOR: [u8; 4] = [0xcc, 0xb2, 0x10, 0xff];

/// One tick never lays or removes track.
pub proof fn lemma_tick_preserves_tracks(g0: Grid, g1: Grid, dx: int, dy: int, last_dir_x: int)
    requires
        g0.wf(),
        tick_rel(g0, g1, dx, dy, last_dir_x),
    ensures
        g1.width == g0.width,
        g1.height == g0.height,
        forall|x: int, y: int|
            g0.in_bounds(x, y) ==> #[trigger] g1.cell_at(x, y).track == g0.cell_at(x, y).track,
{
    reveal(tick_rel);
    if dx == 0 && dy == 0 {
        assert forall|x: int, y: int| g0.in_bounds(x, y)
            implies #[trigger] g1.cell_at(x, y).track == g0.cell_at(x, y).track by {
            crate::grid::lemma_cell_index_bound(x, y, g0.width as int, g0.height as int);
        }
    } else {
        match first_front_from(g0, 0) {
            Some(fi) => {
                let fx = fi % g0.width as int;
                let fy = fi / g0.width as int;
                match resolve_spec(g0, fx, fy, dx, dy, last_dir_x) {
                    Some(mv) => {
                        assert forall|x: int, y: int| g0.in_bounds(x, y)
                            implies #[trigger] g1.cell_at(x, y).track == g0.cell_at(x, y).track by {
                            assert(g1.cell_at(x, y) == stepped_cell(g0, x, y, true, fx, fy, mv.0,
                                mv.1, true));
                        }
                    },
                    None => {
                        assert forall|x: int, y: int| g0.in_bounds(x, y)
                            implies #[trigger] g1.cell_at(x, y).track == g0.cell_at(x, y).track by {
                            assert(g1.cell_at(x, y) == stepped_cell(g0, x, y, false, 0, 0, 0, 0,
                                true));
                        }
                    },
                }
            },
            None => {
                assert forall|x: int, y: int| g0.in_bounds(x, y)
                    implies #[trigger] g1.cell_at(x, y).track == g0.cell_at(x, y).track by {
                    assert(g1.cell_at(x, y) == stepped_cell(g0, x, y, false, 0, 0, 0, 0, true));
                }
            },
        }
    }
}

/// Pixel column of the left edge of grid column `x` under the view
/// offset.
pub open spec fn cell_px_x(g: Game, x: int) -> int {
    g.grid_offset_x + x * CELL_SIZE
}

/// Pixel row of the top edge of grid row `y` under the view offset.
pub open spec fn cell_px_y(g: Game, y: int) -> int {
    g.grid_offset_y + y * CELL_SIZE
}

/// Whether the draw pass treats the cell as visible: its whole box lies
/// inside the fixed frame bounds.
pub open spec fn cell_visible(g: Game, x: int, y: int) -> bool {
    &&& g.grid.in_bounds(x, y)
    &&& 0 <= cell_px_x(g, x)
    &&& cell_px_x(g, x) + CELL_SIZE <= WIDTH as int
    &&& 0 <= cell_px_y(g, y)
    &&& cell_px_y(g, y) + CELL_SIZE <= HEIGHT as int
}

/// Whether the buffer pixel lies inside the cell's drawing box.
pub open spec fn in_cell_box(g: Game, x: int, y: int, px: int, py: int) -> bool {
    &&& cell_px_x(g, x) <= px < cell_px_x(g, x) + CELL_SIZE
    &&& cell_px_y(g, y) <= py < cell_px_y(g, y) + CELL_SIZE
}

/// Two distinct cells' drawing boxes never share a pixel: the boxes tile
/// the plane with a stride equal to their size.
pub proof fn lemma_cell_boxes_disjoint(
    g: Game,
    x1: int,
    y1: int,
    x2: int,
    y2: int,
    px: int,
    py: int,
)
    requires
        in_cell_box(g, x1, y1, px, py),
        in_cell_box(g, x2, y2, px, py),
    ensures
        x1 == x2 && y1 == y2,
{
    assert(x1 == x2) by (nonlinear_arith)
        requires
            g.grid_offset_x + x1 * CELL_SIZE <= px < g.grid_offset_x + x1 * CELL_SIZE + CELL_SIZE,
            g.grid_offset_x + x2 * CELL_SIZE <= px < g.grid_offset_x + x2 * CELL_SIZE + CELL_SIZE;
    assert(y1 == y2) by (nonlinear_arith)
        requires
            g.grid_offset_y + y1 * CELL_SIZE <= py < g.grid_offset_y + y1 * CELL_SIZE + CELL_SIZE,
            g.grid_offset_y + y2 * CELL_SIZE <= py < g.grid_offset_y + y2 * CELL_SIZE + CELL_SIZE;
}

/// The sprite drawn for a mask-selected track-tile variant.
pub open spec fn tile_sprite(g: Game, t: TrackTile) -> Sprite {
    match t {
        TrackTile::Vertical => g.track_tile_normal,
        TrackTile::Horizontal => g.track_tile_flipped,
        TrackTile::CornerTopRight => g.track_tile_corner_t_r,
        TrackTile::CornerTopLeft => g.track_tile_corner_t_l,
        TrackTile::CornerBottomRight => g.track_tile_corner_b_r,
        TrackTile::CornerBottomLeft => g.track_tile_corner_b_l,
        TrackTile::TJunction => g.track_tile_t_junction_flipped,
        TrackTile::Crossing => g.track_tile_crossing,
    }
}

/// The ground layer drawn for a cell: the mask-selected track tile on
/// track, grass under a whole empty cell, nothing otherwise.
pub open spec fn base_layer(g: Game, x: int, y: int) -> Option<(Sprite, [u8; 4])> {
    let cell = g.grid.cell_at(x, y);
    if cell.track {
        Some((tile_sprite(g, spec_track_tile(cell.conn)), CELL_TRACK_COLOR))
    } else if cell.occupant is Vacant {
        Some((g.grass_sprite, GRASS_COLOR))
    } else {
        None
    }
}

/// The occupant overlay drawn over a cell: the player sprite facing the
/// last travel direction on the front cell, the cart sprite on trail
/// cells, the enemy sprite on enemy cells.
pub open spec fn occupant_layer(g: Game, x: int, y: int) -> Option<(Sprite, [u8; 4])> {
    match g.grid.cell_at(x, y).occupant {
        Occupant::Vacant => None,
        Occupant::Front => Some(
            (
                if g.last_dir_x > 0 {
                    g.player_sprite_right
                } else if g.last_dir_y > 0 {
                    g.player_sprite_up
                } else {
                    g.player_sprite_down
                },
                CELL_PLAYER_COLOR,
            ),
        ),
        Occupant::Trailing(_) => Some((g.train_sprite, CELL_PLAYER_COLOR)),
        Occupant::Enemy => Some((g.enemy_sprite, ENEMY_COLOR)),
    }
}

/// Whether a drawn layer writes the pixel: its scaled footprint covers it
/// and the sampled source alpha is nonzero.
pub open spec fn layer_writes(
    layer: Option<(Sprite, [u8; 4])>,
    ox: int,
    oy: int,
    px: int,
    py: int,
) -> bool {
    match layer {
        Some(st) => slice_covers(
            ox,
            oy,
            st.0.width as int,
            st.0.height as int,
            st.0.scale as int,
            px,
            py,
        ) && slice_opaque(st.0.image, ox, oy, st.0.scale as int, 0, px, py),
        None => false,
    }
}

/// The tint a layer writes.
pub open spec fn layer_tint(layer: Option<(Sprite, [u8; 4])>, c: int) -> u8 {
    match layer {
        Some(st) => st.1[c],
        None => BACKGROUND_COLOR[c],
    }
}

/// The channel value the draw pass leaves at a pixel of a visible cell:
/// the occupant tint where the occupant sprite writes, else the ground
/// tint where the ground sprite writes, else the cleared background.
pub open spec fn drawn_byte(g: Game, x: int, y: int, px: int, py: int, c: int) -> u8 {
    let ox = cell_px_x(g, x);
    let oy = cell_px_y(g, y);
    if layer_writes(occupant_layer(g, x, y), ox, oy, px, py) {
        layer_tint(occupant_layer(g, x, y), c)
    } else if layer_writes(base_layer(g, x, y), ox, oy, px, py) {
        layer_tint(base_layer(g, x, y), c)
    } else {
        BACKGROUND_COLOR[c]
    }
}

/// A tinted blit whose sprite footprint fits one cell box writes only
/// inside the box at `(ox, oy)`: each pixel takes the tint where the
/// sprite writes, and keeps its value everywhere else.
proof fn lemma_cell_blit(r0: Renderer, r1: Renderer, s: Sprite, tint: [u8; 4], ox: int, oy: int)
    requires
        s.width as int * s.scale as int <= CELL_SIZE,
        s.height as int * s.scale as int <= CELL_SIZE,
        r0.offset_x == 0,
        r0.offset_y == 0,
        sprite_blit_rel(r0, r1, s, 0, s.width as int, ox, oy, Some(tint)),
    ensures
        forall|px: int, py: int, c: int|
            r0.valid_px(px, py, c) ==> #[trigger] r1.px_byte(px, py, c) == if layer_writes(
                Some((s, tint)),
                ox,
                oy,
                px,
                py,
            ) {
                tint[c]
            } else {
                r0.px_byte(px, py, c)
            },
        forall|px: int, py: int, c: int|
            r0.valid_px(px, py, c) && !(ox <= px < ox + CELL_SIZE && oy <= py < oy + CELL_SIZE)
                ==> #[trigger] r1.px_byte(px, py, c) == r0.px_byte(px, py, c),
{
    assert forall|px: int, py: int, c: int| r0.valid_px(px, py, c)
        implies #[trigger] r1.px_byte(px, py, c) == if layer_writes(
            Some((s, tint)),
            ox,
            oy,
            px,
            py,
        ) {
            tint[c]
        } else {
            r0.px_byte(px, py, c)
        } by {
        assert(r1.px_byte(px, py, c) == if slice_covers(
            ox,
            oy,
            s.width as int,
            s.height as int,
            s.scale as int,
            px,
            py,
        ) && slice_opaque(s.image, ox, oy, s.scale as int, 0, px, py) {
            crate::renderer::blit_out(s.image, ox, oy, s.scale as int, 0, Some(tint), px, py, c)
        } else {
            r0.px_byte(px, py, c)
        });
    }
}

/// Every pixel of the cell's drawing box holds exactly what the draw
/// pass leaves there.
pub open spec fn cell_drawn(g: Game, r: Renderer, x: int, y: int) -> bool {
    forall|px: int, py: int, c: int|
        in_cell_box(g, x, y, px, py) && r.valid_px(px, py, c) ==> #[trigger] r.px_byte(px, py, c)
            == drawn_byte(g, x, y, px, py, c)
}

impl Game {
    /// Pulls the view one cell to the left when this frame's move is
    /// accepted and the front cell sits past the middle of the frame.
    fn camera_follow(&mut self, dir_x: i32, dir_y: i32)
        requires
            old(self).wf(),
            -1 <= dir_x <= 1,
            -1 <= dir_y <= 1,
        ensures
            *final(self) == (Game {
                grid_offset_x: final(self).grid_offset_x,
                ..*old(self)
            }),
            final(self).grid_offset_x as int == if camera_fires(
                old(self).grid,
                dir_x as int,
                dir_y as int,
                old(self).last_dir_x as int,
                old(self).grid_offset_x as int,
            ) {
                sat_i32s(old(self).grid_offset_x - CELL_SIZE)
            } else {
                old(self).grid_offset_x as int
            },
    {
        proof {
            reveal(camera_fires);
        }
        if dir_x != 0 || dir_y != 0 {
            match find_front(&self.grid) {
                Some((fx, fy)) => {
                    proof {
                        let w = self.grid.width as int;
                        let h = self.grid.height as int;
                        let fi = cell_index(fx as int, fy as int, w);
                        crate::grid::lemma_cell_index_bound(fx as int, fy as int, w, h);
                        lemma_cell_index_split(fi, w, h);
                        crate::grid::lemma_cell_index_injective(
                            fi % w,
                            fi / w,
                            fx as int,
                            fy as int,
                            w,
                        );
                    }
                    let mv = resolve_move(&self.grid, fx, fy, dir_x, dir_y, self.last_dir_x);
                    if mv.is_some() {
                        let t: i64 = self.grid_offset_x as i64 + (fx as i64) * (CELL_SIZE as i64);
                        if t > (WIDTH as i64) / 2 {
                            self.grid_offset_x = sat_add_i32(self.grid_offset_x, -CELL_SIZE);
                        }
                    }
                },
                None => {},
            }
        }
    }

    /// Advances the whole engine by one frame: runs the one-time reset,
    /// accumulates the timers, fires an automatic move along the last
    /// travel direction when the interval elapses, applies the speed and
    /// scroll keys, pulls the view after an accepted move past the middle
    /// of the frame, ticks the grid, and advances the follow train.
    #[verifier::rlimit(100)]
    #[verifier::spinoff_prover]
    pub fn update(&mut self, input: &Input, dt_ms: u64)
        requires
            old(self).wf(),
        ensures
            final(self).wf(),
            same_sprites(*old(self), *final(self)),
            final(self).initialized,
            final(self).grid.width == old(self).grid.width,
            final(self).grid.height == old(self).grid.height,
            final(self).time_passed_ms as int == sat_u64s(old(self).time_passed_ms + dt_ms),
            final(self).move_interval_ms as int == adjusted_interval(
                old(self).move_interval_ms as int,
                *input,
            ),
            final(self).grid_offset_y as int == scrolled_y(old(self).grid_offset_y as int, *input),
            final(self).move_timer_ms as int == if sat_u64s(old(self).move_timer_ms + dt_ms) > old(
                self,
            ).move_interval_ms {
                0int
            } else {
                sat_u64s(old(self).move_timer_ms + dt_ms)
            },
            old(self).initialized ==> ({
                let auto = sat_u64s(old(self).move_timer_ms + dt_ms) > old(self).move_interval_ms;
                let dx = if auto { old(self).last_dir_x as int } else { 0int };
                let dy = if auto { old(self).last_dir_y as int } else { 0int };
                let ax = scrolled_x(old(self).grid_offset_x as int, *input);
                frame_step_rel(old(self).grid, *old(self), *final(self), dx, dy, ax)
            }),
            !old(self).initialized ==> ({
                let auto = sat_u64s(old(self).move_timer_ms + dt_ms) > old(self).move_interval_ms;
                let dx = if auto { old(self).last_dir_x as int } else { 0int };
                let dy = if auto { old(self).last_dir_y as int } else { 0int };
                let ax = scrolled_x(old(self).grid_offset_x as int, *input);
                exists|g_mid: Grid|
                    #[trigger] reset_grid_rel(old(self).grid, g_mid) && g_mid.wf()
                        && frame_step_rel(g_mid, *old(self), *final(self), dx, dy, ax)
            }),
            !old(self).initialized ==> forall|x: int, y: int|
                final(self).grid.track_at(x, y) ==> old(self).grid.track_at(x, y) || #[trigger]
                    eligible(old(self).grid, x, y),
    {
        if !self.initialized {
            self.reset();
            self.initialized = true;
        }
        let ghost g_after_reset = self.grid;
        self.time_passed_ms = sat_add_u64(self.time_passed_ms, dt_ms);
        let mt = sat_add_u64(self.move_timer_ms, dt_ms);
        let mut dir_x: i32 = 0;
        let mut dir_y: i32 = 0;
        let auto = mt > self.move_interval_ms;
        if auto {
            dir_x = self.last_dir_x;
            dir_y = self.last_dir_y;
            self.move_timer_ms = 0;
        } else {
            self.move_timer_ms = mt;
        }
        if input.slower_pressed {
            self.move_interval_ms = if self.move_interval_ms + MOVE_INTERVAL_STEP_MS
                > MOVE_INTERVAL_MAX_MS {
                MOVE_INTERVAL_MAX_MS
            } else {
                self.move_interval_ms + MOVE_INTERVAL_STEP_MS
            };
        }
        if input.faster_pressed {
            self.move_interval_ms = if self.move_interval_ms < MOVE_INTERVAL_MIN_MS
                + MOVE_INTERVAL_STEP_MS {
                MOVE_INTERVAL_MIN_MS
            } else {
                self.move_interval_ms - MOVE_INTERVAL_STEP_MS
            };
        }
        if input.scroll_up {
            self.grid_offset_y = sat_add_i32(self.grid_offset_y, CELL_SIZE);
        }
        if input.scroll_down {
            self.grid_offset_y = sat_add_i32(self.grid_offset_y, -CELL_SIZE);
        }
        if input.scroll_left {
            self.grid_offset_x = sat_add_i32(self.grid_offset_x, CELL_SIZE);
        }
        if input.scroll_right {
            self.grid_offset_x = sat_add_i32(self.grid_offset_x, -CELL_SIZE);
        }
        self.camera_follow(dir_x, dir_y);
        let ghost g_before_tick = self.grid;
        self.tick(dir_x, dir_y);
        let head_vx: i64;
        let head_vy: i64;
        if dir_x != 0 || dir_y != 0 {
            head_vx = self.last_dir_x as i64;
            head_vy = self.last_dir_y as i64;
        } else {
            let head = self.train_test[0];
            head_vx = head.vel_x;
            head_vy = head.vel_y;
        }
        advance_train(&mut self.train_test, head_vx, head_vy);
        proof {
            if !old(self).initialized {
                lemma_tick_preserves_tracks(
                    g_before_tick,
                    self.grid,
                    if auto { old(self).last_dir_x as int } else { 0int },
                    if auto { old(self).last_dir_y as int } else { 0int },
                    old(self).last_dir_x as int,
                );
                assert forall|x: int, y: int|
                    self.grid.track_at(x, y) implies old(self).grid.track_at(x, y) || #[trigger]
                        eligible(old(self).grid, x, y) by {
                    assert(g_before_tick.track_at(x, y));
                }
                let dxv = if auto { old(self).last_dir_x as int } else { 0int };
                let dyv = if auto { old(self).last_dir_y as int } else { 0int };
                let axv = scrolled_x(old(self).grid_offset_x as int, *input);
                assert(g_before_tick == g_after_reset);
                assert(reset_grid_rel(old(self).grid, g_before_tick));
                assert(frame_step_rel(g_before_tick, *old(self), *self, dxv, dyv, axv));
                assert(exists|g_mid: Grid|
                    #[trigger] reset_grid_rel(old(self).grid, g_mid) && g_mid.wf()
                        && frame_step_rel(g_mid, *old(self), *self, dxv, dyv, axv));
            }
        }
    }

    /// Draws the layers of one cell when its box is fully visible inside
    /// the fixed frame bounds; an invisible cell leaves the frame
    /// untouched, and no write ever lands outside the cell's box.
    #[verifier::rlimit(100)]
    #[verifier::spinoff_prover]
    fn draw_cell(&self, renderer: &mut Renderer, x: usize, y: usize)
        requires
            self.wf(),
            old(renderer).wf(),
            old(renderer).offset_x == 0,
            old(renderer).offset_y == 0,
            x < self.grid.width,
            y < self.grid.height,
        ensures
            final(renderer).wf(),
            final(renderer).same_config(*old(renderer)),
            forall|px: int, py: int, c: int|
                old(renderer).valid_px(px, py, c) && !in_cell_box(
                    *self,
                    x as int,
                    y as int,
                    px,
                    py,
                ) ==> #[trigger] final(renderer).px_byte(px, py, c) == old(renderer).px_byte(
                    px,
                    py,
                    c,
                ),
            cell_visible(*self, x as int, y as int) ==> forall|px: int, py: int, c: int|
                in_cell_box(*self, x as int, y as int, px, py) && old(renderer).valid_px(px, py, c)
                    ==> #[trigger] final(renderer).px_byte(px, py, c) == if layer_writes(
                    occupant_layer(*self, x as int, y as int),
                    cell_px_x(*self, x as int),
                    cell_px_y(*self, y as int),
                    px,
                    py,
                ) {
                    layer_tint(occupant_layer(*self, x as int, y as int), c)
                } else if layer_writes(
                    base_layer(*self, x as int, y as int),
                    cell_px_x(*self, x as int),
                    cell_px_y(*self, y as int),
                    px,
                    py,
                ) {
                    layer_tint(base_layer(*self, x as int, y as int), c)
                } else {
                    old(renderer).px_byte(px, py, c)
                },
            !cell_visible(*self, x as int, y as int) ==> final(renderer).frame@ == old(
                renderer,
            ).frame@,
    {
        let ghost gi = *self;
        let ghost xi = x as int;
        let ghost yi = y as int;
        let ghost ox = cell_px_x(gi, xi);
        let ghost oy = cell_px_y(gi, yi);
        let gx: i64 = self.grid_offset_x as i64 + (x as i64) * (CELL_SIZE as i64);
        let gy: i64 = self.grid_offset_y as i64 + (y as i64) * (CELL_SIZE as i64);
        if gx >= 0 && gx + CELL_SIZE as i64 <= WIDTH as i64 && gy >= 0 && gy + CELL_SIZE as i64
            <= HEIGHT as i64 {
            let px_pos: i32 = gx as i32;
            let py_pos: i32 = gy as i32;
            let cell = self.grid.cell(x, y);
            let ghost r0 = *renderer;
            let vacant = match cell.occupant {
                Occupant::Vacant => true,
                _ => false,
            };
            if !cell.track && vacant {
                renderer.draw_sprite_color(px_pos, py_pos, &self.grass_sprite, GRASS_COLOR);
                proof {
                    lemma_cell_blit(r0, *renderer, gi.grass_sprite, GRASS_COLOR, ox, oy);
                }
            }
            if cell.track {
                let tile = track_tile_for_mask(cell.conn);
                let sprite = match tile {
                    TrackTile::Vertical => &self.track_tile_normal,
                    TrackTile::Horizontal => &self.track_tile_flipped,
                    TrackTile::CornerTopRight => &self.track_tile_corner_t_r,
                    TrackTile::CornerTopLeft => &self.track_tile_corner_t_l,
                    TrackTile::CornerBottomRight => &self.track_tile_corner_b_r,
                    TrackTile::CornerBottomLeft => &self.track_tile_corner_b_l,
                    TrackTile::TJunction => &self.track_tile_t_junction_flipped,
                    TrackTile::Crossing => &self.track_tile_crossing,
                };
                proof {
                    assert(*sprite == tile_sprite(gi, tile));
                }
                renderer.draw_sprite_color(px_pos, py_pos, sprite, CELL_TRACK_COLOR);
                proof {
                    lemma_cell_blit(
                        r0,
                        *renderer,
                        tile_sprite(gi, spec_track_tile(cell.conn)),
                        CELL_TRACK_COLOR,
                        ox,
                        oy,
                    );
                }
            }
            let ghost r1 = *renderer;
            proof {
                assert forall|ppx: int, ppy: int, cc: int| r0.valid_px(ppx, ppy, cc)
                    implies #[trigger] r1.px_byte(ppx, ppy, cc) == if layer_writes(
                        base_layer(gi, xi, yi),
                        ox,
                        oy,
                        ppx,
                        ppy,
                    ) {
                        layer_tint(base_layer(gi, xi, yi), cc)
                    } else {
                        r0.px_byte(ppx, ppy, cc)
                    } by {}
            }
            match cell.occupant {
                Occupant::Front => {
                    let sp = if self.last_dir_x > 0 {
                        &self.player_sprite_right
                    } else if self.last_dir_y > 0 {
                        &self.player_sprite_up
                    } else {
                        &self.player_sprite_down
                    };
                    renderer.draw_sprite_color(px_pos, py_pos, sp, CELL_PLAYER_COLOR);
                    proof {
                        lemma_cell_blit(r1, *renderer, *sp, CELL_PLAYER_COLOR, ox, oy);
                    }
                },
                Occupant::Trailing(_) => {
                    renderer.draw_sprite_color(px_pos, py_pos, &self.train_sprite,
                        CELL_PLAYER_COLOR);
                    proof {
                        lemma_cell_blit(r1, *renderer, gi.train_sprite, CELL_PLAYER_COLOR, ox, oy);
                    }
                },
                Occupant::Enemy => {
                    renderer.draw_sprite_color(px_pos, py_pos, &self.enemy_sprite, ENEMY_COLOR);
                    proof {
                        lemma_cell_blit(r1, *renderer, gi.enemy_sprite, ENEMY_COLOR, ox, oy);
                    }
                },
                Occupant::Vacant => {},
            }
            proof {
                assert forall|ppx: int, ppy: int, cc: int| r0.valid_px(ppx, ppy, cc)
                    implies #[trigger] renderer.px_byte(ppx, ppy, cc) == if layer_writes(
                        occupant_layer(gi, xi, yi),
                        ox,
                        oy,
                        ppx,
                        ppy,
                    ) {
                        layer_tint(occupant_layer(gi, xi, yi), cc)
                    } else if layer_writes(base_layer(gi, xi, yi), ox, oy, ppx, ppy) {
                        layer_tint(base_layer(gi, xi, yi), cc)
                    } else {
                        r0.px_byte(ppx, ppy, cc)
                    } by {
                    assert(r1.px_byte(ppx, ppy, cc) == if layer_writes(
                        base_layer(gi, xi, yi),
                        ox,
                        oy,
                        ppx,
                        ppy,
                    ) {
                        layer_tint(base_layer(gi, xi, yi), cc)
                    } else {
                        r0.px_byte(ppx, ppy, cc)
                    });
                }
                assert forall|ppx: int, ppy: int, cc: int|
                    r0.valid_px(ppx, ppy, cc) && !in_cell_box(gi, xi, yi, ppx, ppy)
                    implies #[trigger] renderer.px_byte(ppx, ppy, cc) == r0.px_byte(ppx, ppy, cc)
                    by {}
            }
        }
    }

    /// Draws the whole frame: clears it to the background color, zeroes
    /// the draw offset, then renders every fully visible cell's ground
    /// and occupant layers into its own box.  Afterwards every pixel of a
    /// visible cell's box holds exactly the layered value `drawn_byte`
    /// gives it, and every pixel outside all visible cells' boxes holds
    /// the background color.
    #[verifier::rlimit(100)]
    #[verifier::spinoff_prover]
    pub fn draw(&self, renderer: &mut Renderer)
        requires
            self.wf(),
            old(renderer).wf(),
        ensures
            final(renderer).wf(),
            final(renderer).width == old(renderer).width,
            final(renderer).height == old(renderer).height,
            final(renderer).offset_x == 0,
            final(renderer).offset_y == 0,
            forall|x: int, y: int|
                cell_visible(*self, x, y) ==> #[trigger] cell_drawn(*self, *final(renderer), x, y),
            forall|px: int, py: int, c: int|
                final(renderer).valid_px(px, py, c) && !(exists|x: int, y: int|
                    cell_visible(*self, x, y) && #[trigger] in_cell_box(*self, x, y, px, py))
                    ==> #[trigger] final(renderer).px_byte(px, py, c) == BACKGROUND_COLOR[c],
    {
        let ghost gi = *self;
        renderer.clear_frame(BACKGROUND_COLOR);
        let ghost rcleared = *renderer;
        renderer.set_offset(0, 0);
        proof {
            assert forall|px: int, py: int, c: int| renderer.valid_px(px, py, c)
                implies #[trigger] renderer.px_byte(px, py, c) == BACKGROUND_COLOR[c] by {
                assert(rcleared.px_byte(px, py, c) == BACKGROUND_COLOR[c]);
            }
        }
        let mut y: usize = 0;
        while y < self.grid.height
            invariant
                self.wf(),
                gi == *self,
                renderer.wf(),
                renderer.width == old(renderer).width,
                renderer.height == old(renderer).height,
                renderer.offset_x == 0,
                renderer.offset_y == 0,
                y <= self.grid.height,
                forall|xx: int, yy: int|
                    cell_visible(gi, xx, yy) && yy < y ==> #[trigger] cell_drawn(
                        gi,
                        *renderer,
                        xx,
                        yy,
                    ),
                forall|px: int, py: int, c: int|
                    renderer.valid_px(px, py, c) && !(exists|xx: int, yy: int|
                        cell_visible(gi, xx, yy) && yy < y && #[trigger] in_cell_box(
                            gi,
                            xx,
                            yy,
                            px,
                            py,
                        )) ==> #[trigger] renderer.px_byte(px, py, c) == BACKGROUND_COLOR[c],
            decreases self.grid.height - y,
        {
            let mut x: usize = 0;
            while x < self.grid.width
                invariant
                    self.wf(),
                    gi == *self,
                    renderer.wf(),
                    renderer.width == old(renderer).width,
                    renderer.height == old(renderer).height,
                    renderer.offset_x == 0,
                    renderer.offset_y == 0,
                    y < self.grid.height,
                    x <= self.grid.width,
                    forall|xx: int, yy: int|
                        cell_visible(gi, xx, yy) && (yy < y || (yy == y && xx < x))
                            ==> #[trigger] cell_drawn(gi, *renderer, xx, yy),
                    forall|px: int, py: int, c: int|
                        renderer.valid_px(px, py, c) && !(exists|xx: int, yy: int|
                            cell_visible(gi, xx, yy) && (yy < y || (yy == y && xx < x))
                                && #[trigger] in_cell_box(gi, xx, yy, px, py))
                            ==> #[trigger] renderer.px_byte(px, py, c) == BACKGROUND_COLOR[c],
                decreases self.grid.width - x,
            {
                let ghost rpre = *renderer;
                self.draw_cell(renderer, x, y);
                proof {
                    let xi = x as int;
                    let yi = y as int;
                    assert forall|xx: int, yy: int|
                        cell_visible(gi, xx, yy) && (yy < yi || (yy == yi && xx < xi + 1))
                        implies #[trigger] cell_drawn(gi, *renderer, xx, yy) by {
                        if xx == xi && yy == yi {
                            assert forall|ppx: int, ppy: int, cc: int|
                                in_cell_box(gi, xi, yi, ppx, ppy) && renderer.valid_px(
                                    ppx,
                                    ppy,
                                    cc,
                                ) implies #[trigger] renderer.px_byte(ppx, ppy, cc) == drawn_byte(
                                    gi,
                                    xi,
                                    yi,
                                    ppx,
                                    ppy,
                                    cc,
                                ) by {
                                if exists|ax: int, ay: int|
                                    cell_visible(gi, ax, ay) && (ay < yi || (ay == yi && ax < xi))
                                        && #[trigger] in_cell_box(gi, ax, ay, ppx, ppy) {
                                    let (ax, ay) = choose|ax: int, ay: int|
                                        cell_visible(gi, ax, ay) && (ay < yi || (ay == yi && ax
                                            < xi)) && #[trigger] in_cell_box(gi, ax, ay, ppx, ppy);
                                    lemma_cell_boxes_disjoint(gi, ax, ay, xi, yi, ppx, ppy);
                                    assert(false);
                                }
                                assert(rpre.px_byte(ppx, ppy, cc) == BACKGROUND_COLOR[cc]);
                            }
                        } else {
                            assert(cell_drawn(gi, rpre, xx, yy));
                            assert forall|ppx: int, ppy: int, cc: int|
                                in_cell_box(gi, xx, yy, ppx, ppy) && renderer.valid_px(
                                    ppx,
                                    ppy,
                                    cc,
                                ) implies #[trigger] renderer.px_byte(ppx, ppy, cc) == drawn_byte(
                                    gi,
                                    xx,
                                    yy,
                                    ppx,
                                    ppy,
                                    cc,
                                ) by {
                                if in_cell_box(gi, xi, yi, ppx, ppy) {
                                    lemma_cell_boxes_disjoint(gi, xx, yy, xi, yi, ppx, ppy);
                                    assert(false);
                                }
                                assert(rpre.px_byte(ppx, ppy, cc) == drawn_byte(gi, xx, yy, ppx,
                                    ppy, cc));
                            }
                        }
                    }
                    assert forall|ppx: int, ppy: int, cc: int|
                        renderer.valid_px(ppx, ppy, cc) && !(exists|xx: int, yy: int|
                            cell_visible(gi, xx, yy) && (yy < yi || (yy == yi && xx < xi + 1))
                                && #[trigger] in_cell_box(gi, xx, yy, ppx, ppy))
                        implies #[trigger] renderer.px_byte(ppx, ppy, cc) == BACKGROUND_COLOR[cc]
                        by {
                        if cell_visible(gi, xi, yi) && in_cell_box(gi, xi, yi, ppx, ppy) {
                            assert(false);
                        }
                        if cell_visible(gi, xi, yi) {
                            assert(renderer.px_byte(ppx, ppy, cc) == rpre.px_byte(ppx, ppy, cc));
                        } else {
                            assert(renderer.frame@ == rpre.frame@);
                        }
                        assert(rpre.px_byte(ppx, ppy, cc) == BACKGROUND_COLOR[cc]);
                    }
                }
                x = x + 1;
            }
            proof {
                let yi = y as int;
                assert forall|xx: int, yy: int| cell_visible(gi, xx, yy) && yy < yi + 1
                    implies #[trigger] cell_drawn(gi, *renderer, xx, yy) by {}
                assert forall|px: int, py: int, c: int|
                    renderer.valid_px(px, py, c) && !(exists|xx: int, yy: int|
                        cell_visible(gi, xx, yy) && yy < yi + 1 && #[trigger] in_cell_box(
                            gi,
                            xx,
                            yy,
                            px,
                            py,
                        )) implies #[trigger] renderer.px_byte(px, py, c) == BACKGROUND_COLOR[c]
                    by {
                    if exists|xx: int, yy: int|
                        cell_visible(gi, xx, yy) && (yy < yi || (yy == yi && xx
                            < self.grid.width as int)) && #[trigger] in_cell_box(gi, xx, yy, px,
                            py) {
                        let (ax, ay) = choose|xx: int, yy: int|
                            cell_visible(gi, xx, yy) && (yy < yi || (yy == yi && xx
                                < self.grid.width as int)) && #[trigger] in_cell_box(gi, xx, yy,
                                px, py);
                        assert(in_cell_box(gi, ax, ay, px, py));
                        assert(false);
                    }
                }
            }
            y = y + 1;
        }
        proof {
            assert forall|px: int, py: int, c: int|
                renderer.valid_px(px, py, c) && !(exists|x: int, y: int|
                    cell_visible(gi, x, y) && #[trigger] in_cell_box(gi, x, y, px, py))
                implies #[trigger] renderer.px_byte(px, py, c) == BACKGROUND_COLOR[c] by {
                if exists|xx: int, yy: int|
                    cell_visible(gi, xx, yy) && yy < self.grid.height as int
                        && #[trigger] in_cell_box(gi, xx, yy, px, py) {
                    let (ax, ay) = choose|xx: int, yy: int|
                        cell_visible(gi, xx, yy) && yy < self.grid.height as int
                            && #[trigger] in_cell_box(gi, xx, yy, px, py);
                    assert(in_cell_box(gi, ax, ay, px, py));
                    assert(false);
                }
            }
        }
    }
}

} // verus!
